use vstd::prelude::*;

use crate::model::{
    ClassRowModel, GcSnapshot, MemoryClassRow, frames_view, lock_view, opt_view, strings_view, FrameModel, JvmTarget, LockInfo, LockModel,
    StackTraceElement, ThreadInfo, ThreadModel,
};
use crate::text::{
    chars_of, contains, contains_str, decimal, decimal_chars, ends_with, ends_with_str, find,
    find_exec, join, join_from, lemma_find, lemma_find_from, lemma_find_last, lemma_rfind, lines,
    lines_of, lowercase, matches_at, matches_at_exec, parse_u32, parse_u64, parse_u64_radix,
    parse_unsigned, parse_usize, push_all, push_str, rfind, rfind_exec, split_char, split_on,
    split_ws, starts_with, starts_with_str, string_of, sub_chars, to_lowercase, tokens, trim,
    trim_chars, trim_end_char, trim_end_char_exec, trim_start_str, trim_start_str_exec,
};

verus! {

/// The text names the profiler's own user interface.
pub open spec fn profiler_ui_text(lowered: Seq<char>) -> bool {
    contains(lowered, "oprofiler.exe"@) || contains(lowered, "oprofiler.jar"@)
}

/// Whether an already lower-cased `main arguments` text names the profiler's own user interface.
pub fn is_profiler_ui_text(lowered: &str) -> (b: bool)
    ensures
        b == profiler_ui_text(lowered@),
{
    let t = chars_of(lowered);
    contains_str(t.as_slice(), "oprofiler.exe") || contains_str(t.as_slice(), "oprofiler.jar")
}

/// Whether a JVM is the profiler's own user interface.
pub fn is_profiler_ui_process(main: &str, arguments: &str) -> (b: bool)
    ensures
        b == profiler_ui_text(lowercase(main@ + " "@ + arguments@)),
{
    let mut text: Vec<char> = chars_of(main);
    push_str(&mut text, " ");
    push_str(&mut text, arguments);
    let joined = string_of(text.as_slice());
    let lowered = to_lowercase(joined.as_str());
    is_profiler_ui_text(lowered.as_str())
}

/// `main arguments` of a JVM mentions a demo or a server.
pub open spec fn demo_server_text(lowered: Seq<char>) -> bool {
    contains(lowered, "demo"@) || contains(lowered, "server"@)
}

/// Whether an already lower-cased `main arguments` text mentions a demo or a server.
pub fn is_demo_server_text(lowered: &str) -> (b: bool)
    ensures
        b == demo_server_text(lowered@),
{
    let t = chars_of(lowered);
    contains_str(t.as_slice(), "demo") || contains_str(t.as_slice(), "server")
}

/// Whether a JVM looks like a demo application or a server.
pub fn is_likely_demo_server(jvm: &JvmTarget) -> (b: bool)
    ensures
        b == demo_server_text(lowercase(jvm.main_class@ + " "@ + jvm.arguments@)),
{
    let mut text: Vec<char> = chars_of(jvm.main_class.as_str());
    push_str(&mut text, " ");
    push_str(&mut text, jvm.arguments.as_str());
    let joined = string_of(text.as_slice());
    let lowered = to_lowercase(joined.as_str());
    is_demo_server_text(lowered.as_str())
}

/// The part of `s` after its last `c` (`str::rsplit(c).next()`).
pub open spec fn after_last(s: Seq<char>, c: char) -> Seq<char> {
    match rfind(s, seq![c]) {
        Some(i) => s.skip(i + 1),
        None => s,
    }
}

/// The part of `s` after its last `c`.
pub fn after_last_exec(s: &[char], c: char) -> (out: Vec<char>)
    ensures
        out@ == after_last(s@, c),
{
    let mut p: Vec<char> = Vec::new();
    p.push(c);
    assert(p@ == seq![c]);
    let n = s.len();
    match rfind_exec(s, p.as_slice()) {
        Some(i) => {
            proof {
                lemma_find_last(s@, seq![c], s@.len() - 1);
            }
            assert(i + 1 <= n);
            sub_chars(s, i + 1, s.len())
        },
        None => sub_chars(s, 0, s.len()),
    }
}

/// Whether `path` holds no `/`, no `\\` and no `:`: no separator and no Windows prefix on any
/// platform, so the whole path is one component.
pub open spec fn single_component(path: Seq<char>) -> bool {
    !path.contains('/') && !path.contains('\\') && !path.contains(':')
}

/// Calls `Path::file_name` on `path` (with lossless conversion back to a string). Which
/// characters separate components depends on the platform (and, on Windows, on the path's
/// prefix), so where the last component starts is left unnamed. What holds on every platform
/// for a path that ends in `.jar` is stated: the component is a tail of the path that still
/// ends in `.jar`; and a path with no `/`, `\\` or `:` (no separator and no Windows prefix on
/// any platform) is a single component, returned whole.
#[verifier::external_body]
fn path_file_name(path: &str) -> (r: Option<String>)
    requires
        ends_with(path@, ".jar"@),
    ensures
        r matches Some(f) ==> ends_with(path@, f@) && ends_with(f@, ".jar"@),
        single_component(path@) ==> r is Some && r->0@ == path@,
{
    std::path::Path::new(path).file_name().map(|f| f.to_string_lossy().into_owned())
}

/// The name shown for a JVM whose main class or jar is `main`, given the jar's file name.
pub open spec fn display_name_spec(main: Seq<char>, jar_file_name: Option<Seq<char>>) -> Seq<char> {
    if ends_with(main, ".jar"@) {
        match jar_file_name {
            Some(f) => f,
            None => main,
        }
    } else {
        after_last(main, '.')
    }
}

/// The name shown for a JVM whose main class or jar is `main`: the jar's file name for a jar,
/// else the simple class name.
pub fn display_name_for(main: &str, jar_file_name: Option<String>) -> (r: String)
    ensures
        r@ == display_name_spec(main@, opt_view(jar_file_name)),
{
    let m = chars_of(main);
    if ends_with_str(m.as_slice(), ".jar") {
        match jar_file_name {
            Some(f) => f,
            None => string_of(m.as_slice()),
        }
    } else {
        let tail = after_last_exec(m.as_slice(), '.');
        string_of(tail.as_slice())
    }
}

/// The main class (or jar) of a `jps -lv` line.
pub open spec fn jps_main(line: Seq<char>) -> Seq<char> {
    if tokens(line).len() >= 2 {
        tokens(line)[1]
    } else {
        "<unknown>"@
    }
}

/// The JVM arguments of a `jps -lv` line, joined by single spaces.
pub open spec fn jps_arguments(line: Seq<char>) -> Seq<char> {
    if tokens(line).len() >= 2 {
        join(tokens(line).skip(2), " "@)
    } else {
        Seq::empty()
    }
}

/// `jps` and `jcmd` themselves, and the profiler's own user interface, are not profiled.
pub open spec fn jps_excluded(main: Seq<char>, arguments: Seq<char>) -> bool {
    ||| contains(main, "Jps"@)
    ||| contains(main, "sun.tools.jps"@)
    ||| contains(main, "jdk.jcmd"@)
    ||| contains(main, "sun.tools.jcmd"@)
    ||| profiler_ui_text(lowercase(main + " "@ + arguments))
}

/// The JVM already runs the profiler agent.
pub open spec fn jps_profiled(main: Seq<char>, arguments: Seq<char>) -> bool {
    contains(arguments, "oprofiler"@) || contains(arguments, "oprofilerti"@) || contains(
        main,
        "oprofiler"@,
    )
}

/// The process id of a `jps -lv` line, when its first token is one.
pub open spec fn jps_pid(line: Seq<char>) -> Option<nat> {
    if tokens(line).len() >= 1 {
        parse_unsigned(tokens(line)[0], 10, u32::MAX as nat)
    } else {
        None
    }
}

/// Parses one line of `jps -lv` output.
pub fn parse_jps_line(line: &str) -> (r: Option<JvmTarget>)
    ensures
        r is Some <==> (jps_pid(line@) is Some && !jps_excluded(jps_main(line@), jps_arguments(line@))),
        r matches Some(t) ==> {
            &&& jps_pid(line@) == Some(t.pid as nat)
            &&& t.main_class@ == jps_main(line@)
            &&& t.arguments@ == jps_arguments(line@)
            &&& t.profiled == jps_profiled(jps_main(line@), jps_arguments(line@))
            &&& (ends_with(jps_main(line@), ".jar"@) ==> ends_with(jps_main(line@), t.display_name@)
                && ends_with(t.display_name@, ".jar"@))
            &&& (ends_with(jps_main(line@), ".jar"@) && single_component(jps_main(line@))
                ==> t.display_name@ == jps_main(line@))
            &&& (!ends_with(jps_main(line@), ".jar"@) ==> t.display_name@ == after_last(jps_main(line@), '.'))
        },
{
    let lc = chars_of(line);
    let parts = split_ws(lc.as_slice());
    if parts.len() == 0 {
        return None;
    }
    let pid = match parse_u32(parts[0].as_slice()) {
        Some(p) => p,
        None => return None,
    };
    let main_chars: Vec<char> = if parts.len() >= 2 {
        sub_chars(parts[1].as_slice(), 0, parts[1].len())
    } else {
        chars_of("<unknown>")
    };
    assert(main_chars@ == jps_main(line@));
    let rest_chars = if parts.len() >= 2 {
        join_from(&parts, 2, " ")
    } else {
        Vec::new()
    };
    proof {
        assert(parts@.map_values(|v: Vec<char>| v@) =~= tokens(line@));
        if parts@.len() >= 2 {
            assert(parts@.skip(2).map_values(|v: Vec<char>| v@) =~= tokens(line@).skip(2));
        }
    }
    let main = string_of(main_chars.as_slice());
    let rest = string_of(rest_chars.as_slice());
    let m = main_chars.as_slice();
    let a = rest_chars.as_slice();
    if contains_str(m, "Jps") || contains_str(m, "sun.tools.jps") || contains_str(m, "jdk.jcmd")
        || contains_str(m, "sun.tools.jcmd") || is_profiler_ui_process(main.as_str(), rest.as_str()) {
        return None;
    }
    let jar_name = if ends_with_str(m, ".jar") {
        path_file_name(main.as_str())
    } else {
        None
    };
    let display_name = display_name_for(main.as_str(), jar_name);
    assert(main@.subrange(0, main@.len() as int) =~= main@);
    let profiled = contains_str(a, "oprofiler") || contains_str(a, "oprofilerti") || contains_str(
        m,
        "oprofiler",
    );
    Some(JvmTarget { pid, display_name, main_class: main, arguments: rest, profiled })
}

} // verus!

verus! {

/// The text between the last `(` and the last `)` of a frame, and the text before that `(`.
pub open spec fn frame_parts(frame: Seq<char>) -> (Seq<char>, Seq<char>) {
    match rfind(frame, "("@) {
        Some(open) => {
            let close = match rfind(frame, ")"@) {
                Some(c) => c,
                None => frame.len() as int,
            };
            (frame.take(open), frame.subrange(open + 1, close))
        },
        None => (frame, Seq::empty()),
    }
}

/// A frame whose last `)` does not stand before its last `(` (slicing it would panic).
pub open spec fn frame_ok(frame: Seq<char>) -> bool {
    match rfind(frame, "("@) {
        Some(open) => match rfind(frame, ")"@) {
            Some(c) => c >= open + 1,
            None => true,
        },
        None => true,
    }
}

/// The frame that `parse_stack_trace_element` makes of a `class.method(File.java:12)` text.
pub open spec fn frame_model(frame0: Seq<char>) -> FrameModel {
    let frame = trim(frame0);
    let before = frame_parts(frame).0;
    let in_paren = frame_parts(frame).1;
    let native = in_paren == "Native Method"@;
    let file_line: (Option<Seq<char>>, Option<u32>) = if native {
        (None, None)
    } else {
        match rfind(in_paren, ":"@) {
            Some(c) => (
                Some(in_paren.take(c)),
                match parse_unsigned(in_paren.skip(c + 1), 10, u32::MAX as nat) {
                    Some(v) => Some(v as u32),
                    None => None,
                },
            ),
            None => if in_paren.len() > 0 {
                (Some(in_paren), None)
            } else {
                (None, None)
            },
        }
    };
    let names: (Seq<char>, Seq<char>, Seq<char>) = match rfind(before, "."@) {
        Some(d) => {
            let name = before.skip(d + 1);
            match find(name, "("@) {
                Some(p) => (before.take(d), name.take(p), name.skip(p)),
                None => (before.take(d), name, Seq::empty()),
            }
        },
        None => (Seq::empty(), before, Seq::empty()),
    };
    FrameModel {
        class_name: names.0,
        method_name: names.1,
        descriptor: names.2,
        file_name: file_line.0,
        line_number: file_line.1,
        native_method: native,
        raw: frame,
    }
}

/// Splits a frame text such as `java.lang.Thread.sleep(Native Method)` into its parts.
pub fn parse_stack_trace_element(frame0: &str) -> (r: StackTraceElement)
    requires
        frame_ok(trim(frame0@)),
    ensures
        r@ == frame_model(frame0@),
{
    let fc = chars_of(frame0);
    let frame = trim_chars(fc.as_slice());
    let f = frame.as_slice();
    let ghost fv = frame@;
    let open_p = chars_of("(");
    let close_p = chars_of(")");
    proof {
        reveal_strlit("(");
        reveal_strlit(")");
        reveal_strlit(":");
        reveal_strlit(".");
    }
    let (before, in_paren) = match rfind_exec(f, open_p.as_slice()) {
        Some(open) => {
            proof {
                lemma_rfind(fv, "("@);
            }
            let close = match rfind_exec(f, close_p.as_slice()) {
                Some(c) => {
                    proof {
                        lemma_rfind(fv, ")"@);
                    }
                    c
                },
                None => f.len(),
            };
            (sub_chars(f, 0, open), sub_chars(f, open + 1, close))
        },
        None => (sub_chars(f, 0, f.len()), Vec::new()),
    };
    assert(before@ == frame_parts(fv).0);
    assert(in_paren@ == frame_parts(fv).1);
    let ip = in_paren.as_slice();
    let native_lit = chars_of("Native Method");
    let native = ip.len() == native_lit.len() && matches_at_exec_full(ip, native_lit.as_slice());
    let mut file_name: Option<String> = None;
    let mut line_number: Option<u32> = None;
    if !native {
        let colon_p = chars_of(":");
        match rfind_exec(ip, colon_p.as_slice()) {
            Some(c) => {
                proof {
                    lemma_rfind(ip@, ":"@);
                }
                file_name = Some(string_of(sub_chars(ip, 0, c).as_slice()));
                line_number = parse_u32(sub_chars(ip, c + 1, ip.len()).as_slice());
            },
            None => {
                if ip.len() > 0 {
                    file_name = Some(string_of(ip));
                }
            },
        }
    }
    let bp = before.as_slice();
    let dot_p = chars_of(".");
    let (class_name, method_name, descriptor) = match rfind_exec(bp, dot_p.as_slice()) {
        Some(d) => {
            proof {
                lemma_rfind(bp@, "."@);
            }
            let name = sub_chars(bp, d + 1, bp.len());
            let np = name.as_slice();
            assert(np@.subrange(0, np@.len() as int) =~= np@);
            match find_exec(np, open_p.as_slice()) {
                Some(p) => {
                    proof {
                        lemma_find(np@, "("@);
                    }
                    (sub_chars(bp, 0, d), sub_chars(np, 0, p), sub_chars(np, p, np.len()))
                },
                None => (sub_chars(bp, 0, d), sub_chars(np, 0, np.len()), Vec::new()),
            }
        },
        None => (Vec::new(), sub_chars(bp, 0, bp.len()), Vec::new()),
    };
    proof {
        assert(bp@.subrange(0, bp@.len() as int) =~= bp@);
    }
    StackTraceElement {
        class_name: string_of(class_name.as_slice()),
        method_name: string_of(method_name.as_slice()),
        descriptor: string_of(descriptor.as_slice()),
        file_name,
        line_number,
        native_method: native,
        raw: string_of(f),
    }
}

/// Whether `a` and `b` hold the same characters, given equal lengths.
fn matches_at_exec_full(a: &[char], b: &[char]) -> (r: bool)
    requires
        a@.len() == b@.len(),
    ensures
        r == (a@ == b@),
{
    let mut i: usize = 0;
    while i < a.len()
        invariant
            a@.len() == b@.len(),
            i <= a@.len(),
            forall|k: int| 0 <= k < i ==> a@[k] == b@[k],
        decreases a@.len() - i,
    {
        if a[i] != b[i] {
            return false;
        }
        i = i + 1;
    }
    assert(a@ =~= b@);
    true
}

} // verus!

verus! {

/// The class inside `(a ...)` of a monitor line.
pub open spec fn lock_class_spec(line: Seq<char>) -> Option<Seq<char>> {
    match find(line, "(a "@) {
        Some(start) => {
            let rest = line.skip(start + 3);
            match find(rest, ")"@) {
                Some(end) => Some(rest.take(end)),
                None => None,
            }
        },
        None => None,
    }
}

/// The hexadecimal identity inside `<0x...>` of a monitor line.
pub open spec fn lock_identity_spec(line: Seq<char>) -> Option<u64> {
    match find(line, "<0x"@) {
        Some(start) => {
            let rest = line.skip(start + 3);
            match find(rest, ">"@) {
                Some(end) => match parse_unsigned(rest.take(end), 16, u64::MAX as nat) {
                    Some(v) => Some(v as u64),
                    None => None,
                },
                None => None,
            }
        },
        None => None,
    }
}

/// The class of the monitor named by a line such as `- locked <0x1f> (a java.lang.Object)`.
pub fn extract_lock_class(line: &[char]) -> (r: Option<Vec<char>>)
    ensures
        r matches Some(v) ==> lock_class_spec(line@) == Some(v@),
        r is None ==> lock_class_spec(line@) is None,
{
    let start_p = chars_of("(a ");
    let end_p = chars_of(")");
    proof {
        reveal_strlit("(a ");
        reveal_strlit(")");
    }
    match find_exec(line, start_p.as_slice()) {
        Some(start) => {
            proof {
                lemma_find(line@, "(a "@);
            }
            let n = line.len();
            assert(start + 3 <= n);
            let rest = sub_chars(line, start + 3, line.len());
            match find_exec(rest.as_slice(), end_p.as_slice()) {
                Some(end) => {
                    proof {
                        lemma_find(rest@, ")"@);
                    }
                    Some(sub_chars(rest.as_slice(), 0, end))
                },
                None => None,
            }
        },
        None => None,
    }
}

/// The identity of the monitor named by a line such as `- locked <0x1f> (a java.lang.Object)`.
pub fn extract_lock_identity(line: &[char]) -> (r: Option<u64>)
    ensures
        r == lock_identity_spec(line@),
{
    let start_p = chars_of("<0x");
    let end_p = chars_of(">");
    proof {
        reveal_strlit("<0x");
        reveal_strlit(">");
    }
    match find_exec(line, start_p.as_slice()) {
        Some(start) => {
            proof {
                lemma_find(line@, "<0x"@);
            }
            let n = line.len();
            assert(start + 3 <= n);
            let rest = sub_chars(line, start + 3, line.len());
            match find_exec(rest.as_slice(), end_p.as_slice()) {
                Some(end) => {
                    proof {
                        lemma_find(rest@, ">"@);
                    }
                    parse_u64_radix(sub_chars(rest.as_slice(), 0, end).as_slice(), 16)
                },
                None => None,
            }
        },
        None => None,
    }
}

/// The first token of `toks[i..]` that starts with `nid=`, with leading `nid=` removed.
pub open spec fn nid_from(toks: Seq<Seq<char>>, i: int) -> Seq<char>
    decreases toks.len() - i,
{
    if i < 0 || i >= toks.len() {
        "-"@
    } else if starts_with(toks[i], "nid="@) {
        trim_start_str(toks[i], "nid="@)
    } else {
        nid_from(toks, i + 1)
    }
}

/// A thread as its header line (`"name" ... nid=0x1 ...`) introduces it.
pub open spec fn thread_header(line: Seq<char>) -> ThreadModel {
    ThreadModel {
        name: split_on(line, '"')[1],
        state: "UNKNOWN"@,
        nid: nid_from(tokens(line), 0),
        top_frame: Seq::empty(),
        frames: Seq::empty(),
        stack_trace: Seq::empty(),
        lock_info: None,
    }
}

/// The monitor described by a trimmed monitor line.
pub open spec fn lock_model(tr: Seq<char>) -> LockModel {
    LockModel {
        lock_class: match lock_class_spec(tr) {
            Some(c) => c,
            None => "Unknown"@,
        },
        lock_identity: match lock_identity_spec(tr) {
            Some(v) => v,
            None => 0,
        },
        waiting_on: if starts_with(tr, "- waiting"@) {
            Some(tr)
        } else {
            None
        },
        owning: if starts_with(tr, "- locked"@) || starts_with(tr, "   locking"@) {
            Some(tr)
        } else {
            None
        },
    }
}

/// A trimmed line names a monitor.
pub open spec fn is_monitor_line(tr: Seq<char>) -> bool {
    ||| starts_with(tr, "- waiting on"@)
    ||| starts_with(tr, "- waiting to lock"@)
    ||| starts_with(tr, "- locked"@)
    ||| starts_with(tr, "   locking"@)
}

/// What a line below the header adds to a thread.
pub open spec fn thread_body(t: ThreadModel, line: Seq<char>) -> ThreadModel {
    let tr = trim(line);
    if starts_with(tr, "java.lang.Thread.State:"@) {
        let toks = tokens(tr.skip(23));
        ThreadModel {
            state: if toks.len() > 0 {
                toks[0]
            } else {
                "UNKNOWN"@
            },
            ..t
        }
    } else if starts_with(tr, "at "@) {
        let frame = tr.skip(3);
        ThreadModel {
            top_frame: if t.top_frame.len() == 0 {
                frame
            } else {
                t.top_frame
            },
            frames: t.frames.push(frame),
            stack_trace: t.stack_trace.push(frame_model(frame)),
            ..t
        }
    } else if is_monitor_line(tr) {
        if t.lock_info is None {
            ThreadModel { lock_info: Some(lock_model(tr)), ..t }
        } else {
            t
        }
    } else {
        t
    }
}

/// The threads finished, and the one being read, after the first `n` lines.
pub open spec fn dump_state(ls: Seq<Seq<char>>, n: int) -> (Seq<ThreadModel>, Option<ThreadModel>)
    decreases n,
{
    if n <= 0 {
        (Seq::empty(), None)
    } else {
        let prev = dump_state(ls, n - 1);
        let line = ls[n - 1];
        if starts_with(line, "\""@) {
            (
                match prev.1 {
                    Some(t) => prev.0.push(t),
                    None => prev.0,
                },
                Some(thread_header(line)),
            )
        } else {
            match prev.1 {
                Some(t) => (prev.0, Some(thread_body(t, line))),
                None => prev,
            }
        }
    }
}

/// The threads of a `jcmd Thread.print` text.
pub open spec fn dump_threads(raw: Seq<char>) -> Seq<ThreadModel> {
    let st = dump_state(lines(raw), lines(raw).len() as int);
    match st.1 {
        Some(t) => st.0.push(t),
        None => st.0,
    }
}

/// Every frame line that belongs to a thread can be split without panicking.
pub open spec fn dump_frames_ok(raw: Seq<char>) -> bool {
    let ls = lines(raw);
    forall|i: int, j: int|
        0 <= j < i < ls.len() && #[trigger] starts_with(ls[j], "\""@) && !starts_with(
            #[trigger] ls[i],
            "\""@,
        ) && starts_with(trim(ls[i]), "at "@) ==> frame_ok(trim(trim(ls[i]).skip(3)))
}

} // verus!

verus! {

/// The views of a sequence of threads.
pub open spec fn threads_view(v: Seq<ThreadInfo>) -> Seq<ThreadModel> {
    v.map_values(|t: ThreadInfo| t@)
}

proof fn lemma_split_starting_with(s: Seq<char>, c: char)
    requires
        s.len() > 0,
        s[0] == c,
    ensures
        split_on(s, c).len() >= 2,
{
    crate::text::lemma_split_from_len(s, c, 1);
    assert(crate::text::next_char(s, c, 0) == 0);
}

/// A thread as its header line introduces it.
fn thread_from_header(line: &[char]) -> (t: ThreadInfo)
    requires
        starts_with(line@, "\""@),
    ensures
        t@ == thread_header(line@),
{
    proof {
        reveal_strlit("\"");
        reveal_strlit("nid=");
        assert(line@.subrange(0, 1)[0] == line@[0]);
        lemma_split_starting_with(line@, '"');
    }
    let pieces = split_char(line, '"');
    let name = string_of(pieces[1].as_slice());
    let toks = split_ws(line);
    let ghost tv = toks@.map_values(|v: Vec<char>| v@);
    assert(tv =~= tokens(line@));
    let nid_p = chars_of("nid=");
    let mut nid: Vec<char> = chars_of("-");
    let mut i: usize = 0;
    while i < toks.len()
        invariant
            i <= toks@.len(),
            tv == toks@.map_values(|v: Vec<char>| v@),
            nid_p@ == "nid="@,
            nid_from(tv, i as int) == nid_from(tv, 0),
            nid@ == "-"@,
            tv == tokens(line@),
            name@ == split_on(line@, '"')[1],
        decreases toks@.len() - i,
    {
        if matches_at_exec(toks[i].as_slice(), nid_p.as_slice(), 0) {
            let found = trim_start_str_exec(toks[i].as_slice(), nid_p.as_slice());
            let t = ThreadInfo {
                name,
                state: string_of(chars_of("UNKNOWN").as_slice()),
                nid: string_of(found.as_slice()),
                top_frame: String::new(),
                frames: Vec::new(),
                stack_trace: Vec::new(),
                lock_info: None,
            };
            proof {
                assert(tv[i as int] == toks@[i as int]@);
                assert(strings_view(t.frames@) =~= Seq::<Seq<char>>::empty());
                assert(frames_view(t.stack_trace@) =~= Seq::<FrameModel>::empty());
            }
            return t;
        }
        i = i + 1;
    }
    let t = ThreadInfo {
        name,
        state: string_of(chars_of("UNKNOWN").as_slice()),
        nid: string_of(nid.as_slice()),
        top_frame: String::new(),
        frames: Vec::new(),
        stack_trace: Vec::new(),
        lock_info: None,
    };
    proof {
        assert(strings_view(t.frames@) =~= Seq::<Seq<char>>::empty());
        assert(frames_view(t.stack_trace@) =~= Seq::<FrameModel>::empty());
    }
    t
}

/// What a line below the header adds to a thread.
fn apply_thread_line(t: &mut ThreadInfo, line: &[char])
    requires
        starts_with(trim(line@), "at "@) ==> frame_ok(trim(trim(line@).skip(3))),
    ensures
        final(t)@ == thread_body(old(t)@, line@),
{
    proof {
        reveal_strlit("java.lang.Thread.State:");
        reveal_strlit("at ");
    }
    let trc = trim_chars(line);
    let tr = trc.as_slice();
    if starts_with_str(tr, "java.lang.Thread.State:") {
        let toks = split_ws(sub_chars(tr, 23, tr.len()).as_slice());
        if toks.len() > 0 {
            t.state = string_of(toks[0].as_slice());
        } else {
            t.state = string_of(chars_of("UNKNOWN").as_slice());
        }
    } else if starts_with_str(tr, "at ") {
        let frame = sub_chars(tr, 3, tr.len());
        let frame_s = string_of(frame.as_slice());
        let ste = parse_stack_trace_element(frame_s.as_str());
        if t.top_frame.as_str().is_empty() {
            t.top_frame = string_of(frame.as_slice());
        }
        let ghost old_frames = t.frames@;
        let ghost old_stack = t.stack_trace@;
        t.frames.push(frame_s);
        t.stack_trace.push(ste);
        proof {
            assert(strings_view(t.frames@) =~= strings_view(old_frames).push(frame@));
            assert(frames_view(t.stack_trace@) =~= frames_view(old_stack).push(ste@));
        }
    } else if starts_with_str(tr, "- waiting on") || starts_with_str(tr, "- waiting to lock")
        || starts_with_str(tr, "- locked") || starts_with_str(tr, "   locking") {
        if t.lock_info.is_none() {
            let lock_class = match extract_lock_class(tr) {
                Some(c) => string_of(c.as_slice()),
                None => string_of(chars_of("Unknown").as_slice()),
            };
            let lock_identity = match extract_lock_identity(tr) {
                Some(v) => v,
                None => 0,
            };
            let waiting_on = if starts_with_str(tr, "- waiting") {
                Some(string_of(tr))
            } else {
                None
            };
            let owning = if starts_with_str(tr, "- locked") || starts_with_str(tr, "   locking") {
                Some(string_of(tr))
            } else {
                None
            };
            t.lock_info = Some(LockInfo { lock_class, lock_identity, waiting_on, owning });
        }
    }
}

/// Parses the threads of a `jcmd Thread.print -l` text.
pub fn parse_thread_dump(raw: &str) -> (out: Vec<ThreadInfo>)
    requires
        dump_frames_ok(raw@),
    ensures
        threads_view(out@) == dump_threads(raw@),
{
    proof {
        reveal_strlit("\"");
    }
    let rc = chars_of(raw);
    let ls = lines_of(rc.as_slice());
    let ghost lv = lines(raw@);
    let mut threads: Vec<ThreadInfo> = Vec::new();
    let mut current: Option<ThreadInfo> = None;
    let ghost mut hdr: int = 0;
    let mut i: usize = 0;
    while i < ls.len()
        invariant
            lv == lines(raw@),
            ls@.len() == lv.len(),
            forall|j: int| 0 <= j < ls@.len() ==> (#[trigger] ls@[j])@ == lv[j],
            dump_frames_ok(raw@),
            i <= ls@.len(),
            threads_view(threads@) == dump_state(lv, i as int).0,
            current matches Some(t) ==> dump_state(lv, i as int).1 == Some(t@),
            current is None ==> dump_state(lv, i as int).1 is None,
            current is Some ==> 0 <= hdr < i && starts_with(lv[hdr], "\""@),
        decreases ls@.len() - i,
    {
        let line = ls[i].as_slice();
        if starts_with_str(line, "\"") {
            let prev = current.take();
            match prev {
                Some(t) => {
                    let ghost before = threads@;
                    threads.push(t);
                    assert(threads_view(threads@) =~= threads_view(before).push(t@));
                },
                None => {},
            }
            current = Some(thread_from_header(line));
            proof {
                hdr = i as int;
            }
        } else {
            let prev = current.take();
            match prev {
                Some(mut t) => {
                    proof {
                        assert(starts_with(lv[hdr], "\""@));
                        assert(!starts_with(lv[i as int], "\""@));
                    }
                    apply_thread_line(&mut t, line);
                    current = Some(t);
                },
                None => {},
            }
        }
        i = i + 1;
    }
    match current {
        Some(t) => {
            let ghost before = threads@;
            threads.push(t);
            assert(threads_view(threads@) =~= threads_view(before).push(t@));
        },
        None => {},
    }
    threads
}

} // verus!

verus! {

/// The histogram row a line describes, given how many rows came before it.
pub open spec fn histogram_row(line: Seq<char>, count: nat) -> Option<ClassRowModel> {
    let toks = tokens(trim(line));
    let rank_token = if toks.len() > 0 {
        toks[0]
    } else {
        Seq::empty()
    };
    if !ends_with(rank_token, ":"@) {
        None
    } else {
        let name = if toks.len() >= 3 {
            join(toks.skip(3), " "@)
        } else {
            Seq::empty()
        };
        if name.len() == 0 {
            None
        } else {
            Some(
                ClassRowModel {
                    rank: match parse_unsigned(trim_end_char(rank_token, ':'), 10, usize::MAX as nat) {
                        Some(r) => r as usize,
                        None => (count + 1) as usize,
                    },
                    name,
                    instances: match parse_unsigned(toks[1], 10, u64::MAX as nat) {
                        Some(v) => v as u64,
                        None => 0,
                    },
                    bytes: match parse_unsigned(toks[2], 10, u64::MAX as nat) {
                        Some(v) => v as u64,
                        None => 0,
                    },
                    delta_instances: 0,
                    delta_bytes: 0,
                },
            )
        }
    }
}

/// The histogram rows of the first `n` lines.
pub open spec fn histogram_rows(ls: Seq<Seq<char>>, n: int) -> Seq<ClassRowModel>
    decreases n,
{
    if n <= 0 {
        Seq::empty()
    } else {
        let prev = histogram_rows(ls, n - 1);
        match histogram_row(ls[n - 1], prev.len()) {
            Some(r) => prev.push(r),
            None => prev,
        }
    }
}

/// A line of a class histogram that lists a class: its first token ends with `:`, and at least
/// one token (the class name) follows the instance and byte counts.
pub open spec fn histogram_line(line: Seq<char>) -> bool {
    let toks = tokens(trim(line));
    toks.len() >= 4 && ends_with(toks[0], ":"@)
}

/// How many of the first `n` lines list a class.
pub open spec fn histogram_line_count(ls: Seq<Seq<char>>, n: int) -> nat
    decreases n,
{
    if n <= 0 {
        0
    } else {
        histogram_line_count(ls, n - 1) + if histogram_line(ls[n - 1]) {
            1nat
        } else {
            0nat
        }
    }
}

/// A line gives a row exactly when it lists a class: the row is named by the tokens after the
/// two counts, joined by single spaces; its instances and bytes are the second and third
/// tokens read as decimal numbers (0 where one is not); its rank is the first token read as a decimal
/// number once its trailing `:`s are cut, else one more than the rows before it.
pub proof fn lemma_histogram_row_named(line: Seq<char>, count: nat)
    ensures
        histogram_line(line) <==> histogram_row(line, count) is Some,
        histogram_line(line) ==> histogram_row(line, count)->0.name == join(
            tokens(trim(line)).skip(3),
            " "@,
        ),
        histogram_line(line) ==> histogram_row(line, count)->0.instances == match parse_unsigned(
            tokens(trim(line))[1],
            10,
            u64::MAX as nat,
        ) {
            Some(v) => v,
            None => 0,
        },
        histogram_line(line) ==> histogram_row(line, count)->0.bytes == match parse_unsigned(
            tokens(trim(line))[2],
            10,
            u64::MAX as nat,
        ) {
            Some(v) => v,
            None => 0,
        },
        histogram_line(line) ==> histogram_row(line, count)->0.rank == match parse_unsigned(
            trim_end_char(tokens(trim(line))[0], ':'),
            10,
            usize::MAX as nat,
        ) {
            Some(v) => v as usize,
            None => (count + 1) as usize,
        },
{
    let toks = tokens(trim(line));
    crate::text::lemma_tokens_from_nonempty(trim(line), 0);
    if toks.len() >= 4 {
        let parts = toks.skip(3);
        assert(parts.last() == toks[toks.len() - 1]);
        crate::text::lemma_join_nonempty(parts, " "@);
    } else if toks.len() == 3 {
        assert(toks.skip(3) =~= Seq::<Seq<char>>::empty());
    }
}

/// The rows of a class histogram are those of its lines that list a class, one each, in line
/// order: the line `k` gives row number `histogram_line_count(ls, k)`, named by its tokens
/// after the two counts.
pub proof fn lemma_histogram_rows_from_lines(ls: Seq<Seq<char>>, n: int)
    requires
        0 <= n <= ls.len(),
    ensures
        histogram_rows(ls, n).len() == histogram_line_count(ls, n),
        forall|k: int|
            0 <= k < n && histogram_line(#[trigger] ls[k]) ==> histogram_rows(ls, n)[histogram_line_count(
                ls,
                k,
            ) as int].name == join(tokens(trim(ls[k])).skip(3), " "@),
    decreases n,
{
    if n > 0 {
        lemma_histogram_rows_from_lines(ls, n - 1);
        let prev = histogram_rows(ls, n - 1);
        lemma_histogram_row_named(ls[n - 1], prev.len());
        assert forall|k: int|
            0 <= k < n && histogram_line(#[trigger] ls[k]) implies histogram_rows(ls, n)[histogram_line_count(
            ls,
            k,
        ) as int].name == join(tokens(trim(ls[k])).skip(3), " "@) by {
            if k < n - 1 {
                lemma_histogram_line_count_mono(ls, k + 1, n - 1);
            }
        }
    }
}

proof fn lemma_histogram_line_count_mono(ls: Seq<Seq<char>>, a: int, b: int)
    requires
        0 <= a <= b,
    ensures
        histogram_line_count(ls, a) <= histogram_line_count(ls, b),
    decreases b - a,
{
    if a < b {
        lemma_histogram_line_count_mono(ls, a, b - 1);
    }
}

/// The views of a sequence of class rows.
pub open spec fn class_rows_view(v: Seq<MemoryClassRow>) -> Seq<ClassRowModel> {
    v.map_values(|r: MemoryClassRow| r@)
}

proof fn lemma_histogram_rows_len(ls: Seq<Seq<char>>, n: int)
    requires
        0 <= n,
    ensures
        histogram_rows(ls, n).len() <= n,
    decreases n,
{
    if n > 0 {
        lemma_histogram_rows_len(ls, n - 1);
    }
}

/// Parses the rows of a `jcmd GC.class_histogram` text; `Err` when no row is found.
pub fn parse_class_histogram(text: &str) -> (r: Result<Vec<MemoryClassRow>, String>)
    ensures
        r matches Ok(rows) ==> class_rows_view(rows@) == histogram_rows(
            lines(text@),
            lines(text@).len() as int,
        ) && rows@.len() > 0,
        r is Err <==> histogram_rows(lines(text@), lines(text@).len() as int).len() == 0,
        r matches Err(e) ==> e@ == "class histogram returned no rows"@,
{
    proof {
        reveal_strlit(":");
    }
    let tc = chars_of(text);
    let ls = lines_of(tc.as_slice());
    let ghost lv = lines(text@);
    let mut rows: Vec<MemoryClassRow> = Vec::new();
    let mut i: usize = 0;
    while i < ls.len()
        invariant
            lv == lines(text@),
            ls@.len() == lv.len(),
            forall|j: int| 0 <= j < ls@.len() ==> (#[trigger] ls@[j])@ == lv[j],
            i <= ls@.len(),
            class_rows_view(rows@) == histogram_rows(lv, i as int),
            rows@.len() <= i,
        decreases ls@.len() - i,
    {
        let trimmed = trim_chars(ls[i].as_slice());
        let toks = split_ws(trimmed.as_slice());
        let ghost tv = toks@.map_values(|v: Vec<char>| v@);
        assert(tv =~= tokens(trim(lv[i as int])));
        let rank_token: Vec<char> = if toks.len() > 0 {
            sub_chars(toks[0].as_slice(), 0, toks[0].len())
        } else {
            Vec::new()
        };
        proof {
            if toks@.len() > 0 {
                assert(toks@[0]@.subrange(0, toks@[0]@.len() as int) =~= toks@[0]@);
                assert(rank_token@ == tv[0]);
            } else {
                assert(rank_token@ =~= Seq::<char>::empty());
            }
        }
        if ends_with_str(rank_token.as_slice(), ":") {
            let name = if toks.len() >= 3 {
                join_from(&toks, 3, " ")
            } else {
                Vec::new()
            };
            proof {
                if toks@.len() >= 3 {
                    assert(toks@.skip(3).map_values(|v: Vec<char>| v@) =~= tv.skip(3));
                }
            }
            if name.len() > 0 {
                let rank = match parse_usize(trim_end_char_exec(rank_token.as_slice(), ':').as_slice()) {
                    Some(r) => r,
                    None => rows.len() + 1,
                };
                let instances = match parse_u64(toks[1].as_slice()) {
                    Some(v) => v,
                    None => 0,
                };
                let bytes = match parse_u64(toks[2].as_slice()) {
                    Some(v) => v,
                    None => 0,
                };
                let row = MemoryClassRow {
                    rank,
                    name: string_of(name.as_slice()),
                    instances,
                    bytes,
                    delta_instances: 0,
                    delta_bytes: 0,
                };
                let ghost before = rows@;
                rows.push(row);
                proof {
                    assert(tv[1] == toks@[1]@);
                    assert(tv[2] == toks@[2]@);
                    assert(histogram_row(lv[i as int], before.len()) == Some(row@));
                    assert(class_rows_view(rows@) =~= class_rows_view(before).push(row@));
                }
            }
        }
        i = i + 1;
    }
    if rows.len() == 0 {
        Err(string_of(chars_of("class histogram returned no rows").as_slice()))
    } else {
        Ok(rows)
    }
}

/// The last whitespace token of a line, if any.
pub open spec fn last_token(line: Seq<char>) -> Option<Seq<char>> {
    let toks = tokens(line);
    if toks.len() > 0 {
        Some(toks.last())
    } else {
        None
    }
}

/// The counter value at the end of a perf-counter line, if it is a number.
pub open spec fn counter_value(line: Seq<char>) -> Option<nat> {
    match last_token(line) {
        Some(t) => parse_unsigned(t, 10, u64::MAX as nat),
        None => None,
    }
}

/// The collection count a perf-counter line adds.
pub open spec fn gc_count_of(line: Seq<char>) -> nat {
    if contains(line, "sun.gc.collector"@) && contains(line, "invocations"@) {
        match counter_value(line) {
            Some(v) => v,
            None => 0,
        }
    } else {
        0
    }
}

/// The collection time, in milliseconds, that a perf-counter line adds.
pub open spec fn gc_time_of(line: Seq<char>) -> nat {
    if contains(line, "sun.gc.collector"@) && contains(line, ".time"@) {
        match counter_value(line) {
            Some(v) => v / 1_000_000,
            None => 0,
        }
    } else {
        0
    }
}

/// The collection count of the first `n` lines.
pub open spec fn gc_count_total(ls: Seq<Seq<char>>, n: int) -> nat
    decreases n,
{
    if n <= 0 {
        0
    } else {
        gc_count_total(ls, n - 1) + gc_count_of(ls[n - 1])
    }
}

/// The collection time of the first `n` lines.
pub open spec fn gc_time_total(ls: Seq<Seq<char>>, n: int) -> nat
    decreases n,
{
    if n <= 0 {
        0
    } else {
        gc_time_total(ls, n - 1) + gc_time_of(ls[n - 1])
    }
}

proof fn lemma_totals_monotone(ls: Seq<Seq<char>>, j: int, k: int)
    requires
        0 <= j <= k,
    ensures
        gc_count_total(ls, j) <= gc_count_total(ls, k),
        gc_time_total(ls, j) <= gc_time_total(ls, k),
    decreases k - j,
{
    if j < k {
        lemma_totals_monotone(ls, j, k - 1);
    }
}

/// The value of the last token of a line, when it is a `u64`.
fn last_token_value(line: &[char]) -> (r: Option<u64>)
    ensures
        r matches Some(v) ==> counter_value(line@) == Some(v as nat),
        r is None ==> counter_value(line@) is None,
{
    let toks = split_ws(line);
    if toks.len() == 0 {
        return None;
    }
    parse_u64(toks[toks.len() - 1].as_slice())
}

/// Sums the collector counters of a `jcmd PerfCounter.print` text. The sums must fit a `u64`.
pub fn parse_gc_counters(text: &str) -> (g: GcSnapshot)
    requires
        gc_count_total(lines(text@), lines(text@).len() as int) <= u64::MAX,
        gc_time_total(lines(text@), lines(text@).len() as int) <= u64::MAX,
    ensures
        g.count == gc_count_total(lines(text@), lines(text@).len() as int),
        g.time_ms == gc_time_total(lines(text@), lines(text@).len() as int),
{
    let tc = chars_of(text);
    let ls = lines_of(tc.as_slice());
    let ghost lv = lines(text@);
    let mut count: u64 = 0;
    let mut time_ms: u64 = 0;
    let mut i: usize = 0;
    while i < ls.len()
        invariant
            lv == lines(text@),
            ls@.len() == lv.len(),
            forall|j: int| 0 <= j < ls@.len() ==> (#[trigger] ls@[j])@ == lv[j],
            i <= ls@.len(),
            gc_count_total(lv, lv.len() as int) <= u64::MAX,
            gc_time_total(lv, lv.len() as int) <= u64::MAX,
            count == gc_count_total(lv, i as int),
            time_ms == gc_time_total(lv, i as int),
        decreases ls@.len() - i,
    {
        let line = ls[i].as_slice();
        proof {
            lemma_totals_monotone(lv, i + 1, lv.len() as int);
        }
        if contains_str(line, "sun.gc.collector") && contains_str(line, "invocations") {
            match last_token_value(line) {
                Some(v) => {
                    count = count + v;
                },
                None => {},
            }
        }
        if contains_str(line, "sun.gc.collector") && contains_str(line, ".time") {
            match last_token_value(line) {
                Some(v) => {
                    time_ms = time_ms + v / 1_000_000;
                },
                None => {},
            }
        }
        i = i + 1;
    }
    GcSnapshot { count, time_ms }
}

} // verus!

verus! {

/// What a finished external command produced: whether it succeeded, how its exit status
/// prints, and its output streams decoded as text.
#[derive(Clone, Debug)]
pub struct CommandOutput {
    pub success: bool,
    pub status: String,
    pub stdout: String,
    pub stderr: String,
}

/// The message that reports a failed command: `<command> exited with <status>`, then `: ` and
/// the trimmed standard error, or the trimmed standard output when the error stream is blank.
pub open spec fn command_message(command: Seq<char>, status: Seq<char>, stdout: Seq<char>, stderr: Seq<char>) -> Seq<char> {
    let head = command + " exited with "@ + status;
    let detail = if trim(stderr).len() > 0 {
        trim(stderr)
    } else {
        trim(stdout)
    };
    if detail.len() > 0 {
        head + ": "@ + detail
    } else {
        head
    }
}

/// The message that reports a failed command.
pub fn command_output_message(command: &str, output: &CommandOutput) -> (m: String)
    ensures
        m@ == command_message(command@, output.status@, output.stdout@, output.stderr@),
{
    let out = chars_of(output.stdout.as_str());
    let err = chars_of(output.stderr.as_str());
    let mut message: Vec<char> = chars_of(command);
    push_str(&mut message, " exited with ");
    push_str(&mut message, output.status.as_str());
    let err_t = trim_chars(err.as_slice());
    let detail = if err_t.len() > 0 {
        err_t
    } else {
        trim_chars(out.as_slice())
    };
    if detail.len() > 0 {
        push_str(&mut message, ": ");
        push_all(&mut message, detail.as_slice());
    }
    string_of(message.as_slice())
}

/// The trimmed non-blank lines of `ls`, in order.
pub open spec fn nonblank_trimmed(ls: Seq<Seq<char>>) -> Seq<Seq<char>>
    decreases ls.len(),
{
    if ls.len() == 0 {
        Seq::empty()
    } else if trim(ls.last()).len() > 0 {
        nonblank_trimmed(ls.drop_last()).push(trim(ls.last()))
    } else {
        nonblank_trimmed(ls.drop_last())
    }
}

/// The at most eight log lines that a command's output yields: the trimmed non-blank lines of
/// standard output, then of standard error.
pub open spec fn command_log_lines(stdout: Seq<char>, stderr: Seq<char>) -> Seq<Seq<char>> {
    let all = nonblank_trimmed(lines(stdout) + lines(stderr));
    if all.len() > 8 {
        all.take(8)
    } else {
        all
    }
}

/// The at most eight log lines that a command's output yields, in order.
pub fn command_output_lines(output: &CommandOutput) -> (r: Vec<String>)
    ensures
        strings_view(r@) == command_log_lines(output.stdout@, output.stderr@),
{
    let out = chars_of(output.stdout.as_str());
    let err = chars_of(output.stderr.as_str());
    let lo = lines_of(out.as_slice());
    let le = lines_of(err.as_slice());
    let ghost all_lines = lines(output.stdout@) + lines(output.stderr@);
    let mut r: Vec<String> = Vec::new();
    let mut i: usize = 0;
    while i < lo.len() && r.len() < 8
        invariant
            all_lines == lines(output.stdout@) + lines(output.stderr@),
            lo@.len() == lines(output.stdout@).len(),
            forall|j: int| 0 <= j < lo@.len() ==> (#[trigger] lo@[j])@ == lines(output.stdout@)[j],
            i <= lo@.len(),
            r@.len() <= 8,
            strings_view(r@) == nonblank_trimmed(all_lines.take(i as int)),
        decreases lo@.len() - i,
    {
        note_log_line(&mut r, lo[i].as_slice(), Ghost(all_lines), Ghost(i as int));
        i = i + 1;
    }
    let ghost base = lo@.len() as int;
    if r.len() < 8 {
        let mut j: usize = 0;
        while j < le.len() && r.len() < 8
            invariant
                all_lines == lines(output.stdout@) + lines(output.stderr@),
                base == lines(output.stdout@).len(),
                le@.len() == lines(output.stderr@).len(),
                forall|t: int| 0 <= t < le@.len() ==> (#[trigger] le@[t])@ == lines(output.stderr@)[t],
                j <= le@.len(),
                r@.len() <= 8,
                strings_view(r@) == nonblank_trimmed(all_lines.take(base + j)),
            decreases le@.len() - j,
        {
            assert(all_lines[base + j] == le@[j as int]@);
            note_log_line(&mut r, le[j].as_slice(), Ghost(all_lines), Ghost(base + j));
            j = j + 1;
        }
        proof {
            lemma_nonblank_prefix(all_lines, base + j);
            finish_log_lines(all_lines, base + j, strings_view(r@));
        }
    } else {
        proof {
            lemma_nonblank_prefix(all_lines, i as int);
            finish_log_lines(all_lines, i as int, strings_view(r@));
        }
    }
    r
}

proof fn finish_log_lines(all_lines: Seq<Seq<char>>, k: int, r: Seq<Seq<char>>)
    requires
        0 <= k <= all_lines.len(),
        r.len() <= 8,
        r == nonblank_trimmed(all_lines.take(k)),
        ({
            let all = nonblank_trimmed(all_lines);
            if r.len() >= 8 {
                all.len() >= 8 && all.take(8) == r.take(8)
            } else {
                all == r
            }
        }),
    ensures
        ({
            let all = nonblank_trimmed(all_lines);
            r == if all.len() > 8 {
                all.take(8)
            } else {
                all
            }
        }),
{
    let all = nonblank_trimmed(all_lines);
    if r.len() >= 8 {
        assert(r.take(8) =~= r);
        if all.len() == 8 {
            assert(all.take(8) =~= all);
        }
    }
}

/// Adds the trimmed line, when it is not blank, as the log line for position `k` of `all`.
fn note_log_line(r: &mut Vec<String>, line: &[char], all: Ghost<Seq<Seq<char>>>, k: Ghost<int>)
    requires
        0 <= k@ < all@.len(),
        line@ == all@[k@],
        old(r)@.len() < 8,
        strings_view(old(r)@) == nonblank_trimmed(all@.take(k@)),
    ensures
        final(r)@.len() <= 8,
        strings_view(final(r)@) == nonblank_trimmed(all@.take(k@ + 1)),
{
    assert(all@.take(k@ + 1).drop_last() == all@.take(k@));
    let t = trim_chars(line);
    if t.len() > 0 {
        let ghost before = r@;
        r.push(string_of(t.as_slice()));
        assert(strings_view(r@) =~= strings_view(before).push(t@));
    }
}

proof fn lemma_nonblank_len(ls: Seq<Seq<char>>)
    ensures
        nonblank_trimmed(ls).len() <= ls.len(),
    decreases ls.len(),
{
    if ls.len() > 0 {
        lemma_nonblank_len(ls.drop_last());
    }
}

/// Once eight lines are found, later lines only extend the list beyond them.
proof fn lemma_nonblank_prefix(ls: Seq<Seq<char>>, k: int)
    requires
        0 <= k <= ls.len(),
        k == ls.len() || nonblank_trimmed(ls.take(k)).len() >= 8,
    ensures
        ({
            let all = nonblank_trimmed(ls);
            let done = nonblank_trimmed(ls.take(k));
            if done.len() >= 8 {
                all.len() >= 8 && all.take(8) == done.take(8)
            } else {
                all == done
            }
        }),
    decreases ls.len() - k,
{
    if k == ls.len() {
        assert(ls.take(k) == ls);
    } else {
        assert(ls.take(k + 1).drop_last() == ls.take(k));
        lemma_nonblank_prefix(ls, k + 1);
        let d1 = nonblank_trimmed(ls.take(k + 1));
        let d0 = nonblank_trimmed(ls.take(k));
        assert(d1.take(8) =~= d0.take(8));
    }
}

/// The arguments of `jcmd <pid> JFR.start name=openprofiler settings=profile`.
pub fn jfr_start_args(pid: u32) -> (r: Vec<String>)
    ensures
        strings_view(r@) == seq![decimal(pid as nat), "JFR.start"@, "name=openprofiler"@, "settings=profile"@],
{
    let mut r: Vec<String> = Vec::new();
    r.push(string_of(decimal_chars(pid as u64).as_slice()));
    r.push(string_of(chars_of("JFR.start").as_slice()));
    r.push(string_of(chars_of("name=openprofiler").as_slice()));
    r.push(string_of(chars_of("settings=profile").as_slice()));
    assert(strings_view(r@) =~= seq![decimal(pid as nat), "JFR.start"@, "name=openprofiler"@, "settings=profile"@]);
    r
}

/// The arguments of `jcmd <pid> JFR.dump name=openprofiler filename=<path>`.
pub fn jfr_dump_args(pid: u32, path: &str) -> (r: Vec<String>)
    ensures
        strings_view(r@) == seq![decimal(pid as nat), "JFR.dump"@, "name=openprofiler"@, "filename="@ + path@],
{
    let mut r: Vec<String> = Vec::new();
    r.push(string_of(decimal_chars(pid as u64).as_slice()));
    r.push(string_of(chars_of("JFR.dump").as_slice()));
    r.push(string_of(chars_of("name=openprofiler").as_slice()));
    let mut f: Vec<char> = chars_of("filename=");
    push_str(&mut f, path);
    r.push(string_of(f.as_slice()));
    assert(strings_view(r@) =~= seq![decimal(pid as nat), "JFR.dump"@, "name=openprofiler"@, "filename="@ + path@]);
    r
}

/// The arguments of `jcmd <pid> JFR.stop name=openprofiler`.
pub fn jfr_stop_args(pid: u32) -> (r: Vec<String>)
    ensures
        strings_view(r@) == seq![decimal(pid as nat), "JFR.stop"@, "name=openprofiler"@],
{
    let mut r: Vec<String> = Vec::new();
    r.push(string_of(decimal_chars(pid as u64).as_slice()));
    r.push(string_of(chars_of("JFR.stop").as_slice()));
    r.push(string_of(chars_of("name=openprofiler").as_slice()));
    assert(strings_view(r@) =~= seq![decimal(pid as nat), "JFR.stop"@, "name=openprofiler"@]);
    r
}

/// The trimmed standard output of a command that succeeded, or the message that reports its
/// failure.
pub fn command_text_result(command: &str, output: &CommandOutput) -> (r: Result<String, String>)
    ensures
        output.success ==> (r matches Ok(t) && t@ == trim(output.stdout@)),
        !output.success ==> (r matches Err(m) && m@ == command_message(
            command@,
            output.status@,
            output.stdout@,
            output.stderr@,
        )),
{
    if output.success {
        let out = chars_of(output.stdout.as_str());
        Ok(string_of(trim_chars(out.as_slice()).as_slice()))
    } else {
        Err(command_output_message(command, output))
    }
}


/// What follows an attempt to start the JFR recording.
#[derive(Debug)]
pub enum JfrStartStep {
    /// Run `jcmd JFR.start` once more.
    Retry,
    /// The outcome: the command's trimmed output, or the message that reports its failure.
    Done(Result<String, String>),
}

/// What follows the `attempt`-th run of `jcmd JFR.start` (counted from 1): a failed first run
/// is tried once more; otherwise the run's output decides the outcome.
pub fn jfr_start_step(attempt: u32, output: &CommandOutput) -> (r: JfrStartStep)
    requires
        attempt >= 1,
    ensures
        !output.success && attempt == 1 <==> r is Retry,
        output.success ==> (r matches JfrStartStep::Done(Ok(t)) && t@ == trim(output.stdout@)),
        !output.success && attempt >= 2 ==> (r matches JfrStartStep::Done(Err(m)) && m@
            == command_message("jcmd JFR.start"@, output.status@, output.stdout@, output.stderr@)),
{
    if !output.success && attempt == 1 {
        JfrStartStep::Retry
    } else {
        JfrStartStep::Done(command_text_result("jcmd JFR.start", output))
    }
}
} // verus!

verus! {

broadcast use vstd::seq_lib::group_to_multiset_ensures;

/// Where the reader of `jfr print --events jdk.ExecutionSample` output stands: inside an event,
/// inside its stack trace, the first frame of that stack trace, and the top frames of the
/// finished events.
pub struct JfrScan {
    pub in_event: bool,
    pub in_stack: bool,
    pub first: Option<Seq<char>>,
    pub leaves: Seq<Seq<char>>,
}

/// How one line moves the reader.
pub open spec fn jfr_step(st: JfrScan, line: Seq<char>) -> JfrScan {
    let tr = trim(line);
    if tr == "jdk.ExecutionSample {"@ {
        JfrScan { in_event: true, in_stack: false, first: None, leaves: st.leaves }
    } else if !st.in_event {
        st
    } else if starts_with(tr, "stackTrace = ["@) {
        JfrScan { in_stack: true, ..st }
    } else if st.in_stack && tr == "]"@ {
        JfrScan {
            in_event: false,
            in_stack: false,
            first: None,
            leaves: match st.first {
                Some(f) => st.leaves.push(f),
                None => st.leaves,
            },
        }
    } else if st.in_stack {
        JfrScan {
            first: match st.first {
                Some(f) => Some(f),
                None => Some(tr),
            },
            ..st
        }
    } else if tr == "}"@ {
        JfrScan { in_event: false, first: None, ..st }
    } else {
        st
    }
}

/// The reader after the first `n` lines.
pub open spec fn jfr_scan(ls: Seq<Seq<char>>, n: int) -> JfrScan
    decreases n,
{
    if n <= 0 {
        JfrScan { in_event: false, in_stack: false, first: None, leaves: Seq::empty() }
    } else {
        jfr_step(jfr_scan(ls, n - 1), ls[n - 1])
    }
}

/// The top frame of every complete execution sample, in order.
pub open spec fn jfr_leaves(text: Seq<char>) -> Seq<Seq<char>> {
    jfr_scan(lines(text), lines(text).len() as int).leaves
}

/// Samples counted for one method.
#[derive(Clone, Debug)]
pub struct JfrMethodCount {
    pub method: String,
    pub class_name: String,
    pub method_name: String,
    pub samples: u64,
}

/// The mathematical content of a method count.
pub struct JfrCountModel {
    pub method: Seq<char>,
    pub class_name: Seq<char>,
    pub method_name: Seq<char>,
    pub samples: nat,
}

impl View for JfrMethodCount {
    type V = JfrCountModel;

    open spec fn view(&self) -> JfrCountModel {
        JfrCountModel {
            method: self.method@,
            class_name: self.class_name@,
            method_name: self.method_name@,
            samples: self.samples as nat,
        }
    }
}

/// The views of a sequence of method counts.
pub open spec fn counts_view(v: Seq<JfrMethodCount>) -> Seq<JfrCountModel> {
    v.map_values(|c: JfrMethodCount| c@)
}

/// The position of the first count for `key`.
pub open spec fn count_index(cs: Seq<JfrCountModel>, key: Seq<char>, i: int) -> Option<int>
    decreases cs.len() - i,
{
    if i < 0 || i >= cs.len() {
        None
    } else if cs[i].method == key {
        Some(i)
    } else {
        count_index(cs, key, i + 1)
    }
}

/// The counts of the first `n` top frames, one per method in the order first seen; a method
/// keeps the class and method name of its first frame.
pub open spec fn jfr_counts(leaves: Seq<Seq<char>>, n: int) -> Seq<JfrCountModel>
    decreases n,
{
    if n <= 0 {
        Seq::empty()
    } else {
        let prev = jfr_counts(leaves, n - 1);
        let fm = frame_model(leaves[n - 1]);
        let key = crate::model::qualified_name(fm.class_name, fm.method_name, fm.descriptor);
        match count_index(prev, key, 0) {
            Some(k) => prev.update(k, JfrCountModel { samples: prev[k].samples + 1, ..prev[k] }),
            None => prev.push(
                JfrCountModel {
                    method: key,
                    class_name: fm.class_name,
                    method_name: fm.method_name,
                    samples: 1,
                },
            ),
        }
    }
}

/// Counts never reach past the number of frames counted.
pub open spec fn counts_bounded(cs: Seq<JfrCountModel>, n: int) -> bool {
    forall|k: int| 0 <= k < cs.len() ==> (#[trigger] cs[k]).samples <= n
}

proof fn lemma_count_index(cs: Seq<JfrCountModel>, key: Seq<char>, i: int)
    requires
        0 <= i,
    ensures
        count_index(cs, key, i) matches Some(k) ==> i <= k < cs.len() && cs[k].method == key,
        count_index(cs, key, i) is None ==> forall|k: int| i <= k < cs.len() ==> cs[k].method != key,
    decreases cs.len() - i,
{
    if i < cs.len() && cs[i].method != key {
        lemma_count_index(cs, key, i + 1);
    }
}

/// The samples of `s` never increase from one entry to the next.
pub open spec fn nonincreasing(s: Seq<JfrCountModel>) -> bool {
    forall|i: int, j: int| 0 <= i < j < s.len() ==> s[j].samples <= s[i].samples
}

/// `out` holds the `limit` largest entries of `all` (all of them when there are fewer), the
/// largest first; entries with equal samples may come in any order.
pub open spec fn top_counts(all: Seq<JfrCountModel>, out: Seq<JfrCountModel>, limit: nat) -> bool {
    &&& out.len() == (if all.len() < limit { all.len() } else { limit })
    &&& nonincreasing(out)
    &&& out.to_multiset().subset_of(all.to_multiset())
    &&& forall|x: JfrCountModel|
        all.to_multiset().count(x) > out.to_multiset().count(x) ==> forall|j: int|
            0 <= j < out.len() ==> x.samples <= #[trigger] out[j].samples
}

/// Counts the top frame of each execution sample per method.
fn count_leaves(leaves: &Vec<String>) -> (out: Vec<JfrMethodCount>)
    requires
        forall|k: int| 0 <= k < leaves@.len() ==> frame_ok(trim(#[trigger] leaves@[k]@)),
    ensures
        counts_view(out@) == jfr_counts(strings_view(leaves@), leaves@.len() as int),
{
    let ghost lv = strings_view(leaves@);
    let mut out: Vec<JfrMethodCount> = Vec::new();
    let mut i: usize = 0;
    while i < leaves.len()
        invariant
            lv == strings_view(leaves@),
            forall|k: int| 0 <= k < leaves@.len() ==> frame_ok(trim(#[trigger] leaves@[k]@)),
            i <= leaves@.len(),
            counts_view(out@) == jfr_counts(lv, i as int),
            counts_bounded(counts_view(out@), i as int),
        decreases leaves@.len() - i,
    {
        let ste = parse_stack_trace_element(leaves[i].as_str());
        let key = ste.full_name();
        let ghost cv = counts_view(out@);
        let mut k: usize = 0;
        while k < out.len() && !(out[k].method == key)
            invariant
                cv == counts_view(out@),
                k <= out@.len(),
                count_index(cv, key@, k as int) == count_index(cv, key@, 0),
            decreases out@.len() - k,
        {
            k = k + 1;
        }
        assert(lv[i as int] == leaves@[i as int]@);
        if k < out.len() {
            let old_c = out[k].clone_count();
            assert(old_c.samples <= i);
            let updated = JfrMethodCount {
                method: old_c.method,
                class_name: old_c.class_name,
                method_name: old_c.method_name,
                samples: old_c.samples + 1,
            };
            out.set(k, updated);
            proof {
                assert(counts_view(out@) =~= cv.update(k as int, updated@));
            }
        } else {
            proof {
                lemma_count_index(cv, key@, 0);
            }
            let c = JfrMethodCount {
                method: key,
                class_name: ste.class_name,
                method_name: ste.method_name,
                samples: 1,
            };
            out.push(c);
            proof {
                assert(counts_view(out@) =~= cv.push(c@));
            }
        }
        i = i + 1;
    }
    out
}

impl JfrMethodCount {
    /// A copy of this count.
    pub fn clone_count(&self) -> (c: JfrMethodCount)
        ensures
            c@ == self@,
    {
        JfrMethodCount {
            method: self.method.clone(),
            class_name: self.class_name.clone(),
            method_name: self.method_name.clone(),
            samples: self.samples,
        }
    }
}

} // verus!

verus! {

/// The top frame of every complete execution sample of a `jfr print` text, in order.
pub fn jfr_sample_leaves(text: &str) -> (out: Vec<String>)
    ensures
        strings_view(out@) == jfr_leaves(text@),
{
    let tc = chars_of(text);
    let ls = lines_of(tc.as_slice());
    let ghost lv = lines(text@);
    let event_open = chars_of("jdk.ExecutionSample {");
    let close_bracket = chars_of("]");
    let close_brace = chars_of("}");
    let mut in_event = false;
    let mut in_stack = false;
    let mut first: Option<Vec<char>> = None;
    let mut leaves: Vec<String> = Vec::new();
    let mut i: usize = 0;
    while i < ls.len()
        invariant
            lv == lines(text@),
            ls@.len() == lv.len(),
            forall|j: int| 0 <= j < ls@.len() ==> (#[trigger] ls@[j])@ == lv[j],
            event_open@ == "jdk.ExecutionSample {"@,
            close_bracket@ == "]"@,
            close_brace@ == "}"@,
            i <= ls@.len(),
            jfr_scan(lv, i as int).in_event == in_event,
            jfr_scan(lv, i as int).in_stack == in_stack,
            jfr_scan(lv, i as int).first == (match first {
                Some(f) => Some(f@),
                None => None,
            }),
            jfr_scan(lv, i as int).leaves == strings_view(leaves@),
        decreases ls@.len() - i,
    {
        let tr = trim_chars(ls[i].as_slice());
        let t = tr.as_slice();
        if same_chars(t, event_open.as_slice()) {
            in_event = true;
            in_stack = false;
            first = None;
        } else if !in_event {
        } else if starts_with_str(t, "stackTrace = [") {
            in_stack = true;
        } else if in_stack && same_chars(t, close_bracket.as_slice()) {
            in_stack = false;
            in_event = false;
            let f = first.take();
            match f {
                Some(leaf) => {
                    let ghost before = leaves@;
                    leaves.push(string_of(leaf.as_slice()));
                    assert(strings_view(leaves@) =~= strings_view(before).push(leaf@));
                },
                None => {},
            }
        } else if in_stack {
            if first.is_none() {
                first = Some(tr);
            }
        } else if same_chars(t, close_brace.as_slice()) {
            in_event = false;
            first = None;
        }
        i = i + 1;
    }
    leaves
}

/// Whether two character sequences are equal.
pub fn same_chars(a: &[char], b: &[char]) -> (r: bool)
    ensures
        r == (a@ == b@),
{
    if a.len() != b.len() {
        return false;
    }
    let mut i: usize = 0;
    while i < a.len()
        invariant
            a@.len() == b@.len(),
            i <= a@.len(),
            forall|k: int| 0 <= k < i ==> a@[k] == b@[k],
        decreases a@.len() - i,
    {
        if a[i] != b[i] {
            return false;
        }
        i = i + 1;
    }
    assert(a@ =~= b@);
    true
}

/// The position of an entry with the most samples.
fn index_of_max(v: &Vec<JfrMethodCount>) -> (m: usize)
    requires
        v@.len() > 0,
    ensures
        m < v@.len(),
        forall|j: int| 0 <= j < v@.len() ==> v@[j].samples <= v@[m as int].samples,
{
    let mut m: usize = 0;
    let mut i: usize = 1;
    while i < v.len()
        invariant
            1 <= i <= v@.len(),
            m < i,
            forall|j: int| 0 <= j < i ==> v@[j].samples <= v@[m as int].samples,
        decreases v@.len() - i,
    {
        if v[i].samples > v[m].samples {
            m = i;
        }
        i = i + 1;
    }
    m
}

/// The `limit` largest counts (all of them when there are fewer), the largest first.
pub fn top_method_counts(all: Vec<JfrMethodCount>, limit: usize) -> (out: Vec<JfrMethodCount>)
    ensures
        top_counts(counts_view(all@), counts_view(out@), limit as nat),
{
    let ghost av = counts_view(all@);
    let mut rem = all;
    let mut sorted: Vec<JfrMethodCount> = Vec::new();
    while sorted.len() < limit && rem.len() > 0
        invariant
            sorted@.len() <= limit,
            counts_view(sorted@).to_multiset().add(counts_view(rem@).to_multiset())
                == av.to_multiset(),
            sorted@.len() + rem@.len() == av.len(),
            nonincreasing(counts_view(sorted@)),
            forall|i: int, j: int|
                0 <= i < sorted@.len() && 0 <= j < rem@.len() ==> rem@[j].samples
                    <= sorted@[i].samples,
        decreases rem@.len(),
    {
        let m = index_of_max(&rem);
        let ghost rv = counts_view(rem@);
        let ghost sv = counts_view(sorted@);
        let x = rem.remove(m);
        sorted.push(x);
        proof {
            assert(counts_view(rem@) =~= rv.remove(m as int));
            assert(counts_view(sorted@) =~= sv.push(x@));
            assert(rv[m as int] == x@);
            assert(counts_view(sorted@).to_multiset() =~= sv.to_multiset().insert(x@));
            assert(counts_view(rem@).to_multiset() =~= rv.to_multiset().remove(x@));
            assert(rv.to_multiset().count(x@) > 0) by {
                assert(rv.contains(x@));
            }
            assert(counts_view(sorted@).to_multiset().add(counts_view(rem@).to_multiset())
                =~= sv.to_multiset().add(rv.to_multiset()));
        }
    }
    proof {
        let sv = counts_view(sorted@);
        let rv = counts_view(rem@);
        assert forall|x: JfrCountModel|
            av.to_multiset().count(x) > sv.to_multiset().count(x) implies forall|j: int|
                0 <= j < sv.len() ==> x.samples <= #[trigger] sv[j].samples by {
            assert(rv.to_multiset().count(x) > 0);
            assert(rv.contains(x));
            let k = choose|k: int| 0 <= k < rv.len() && rv[k] == x;
            assert(rem@[k].samples == x.samples);
        }
        assert(sv.to_multiset().subset_of(av.to_multiset()));
    }
    sorted
}

/// Samples per method of a `jfr print --events jdk.ExecutionSample` text: one per complete
/// sample, counted for its top frame, at most 250 methods, the most sampled first.
pub fn jfr_method_samples(text: &str) -> (out: Vec<JfrMethodCount>)
    requires
        forall|k: int|
            0 <= k < jfr_leaves(text@).len() ==> frame_ok(trim(#[trigger] jfr_leaves(text@)[k])),
    ensures
        top_counts(
            jfr_counts(jfr_leaves(text@), jfr_leaves(text@).len() as int),
            counts_view(out@),
            250,
        ),
{
    let leaves = jfr_sample_leaves(text);
    proof {
        assert forall|k: int| 0 <= k < leaves@.len() implies frame_ok(trim(#[trigger] leaves@[k]@)) by {
            assert(strings_view(leaves@)[k] == leaves@[k]@);
        }
    }
    let counts = count_leaves(&leaves);
    top_method_counts(counts, 250)
}

/// Whether a frame text can be split: its last `)` does not stand before its last `(`.
pub fn frame_is_parsable(frame: &str) -> (b: bool)
    ensures
        b == frame_ok(trim(frame@)),
{
    let t = trim_chars(chars_of(frame).as_slice());
    frame_chars_ok(t.as_slice())
}

fn frame_chars_ok(t: &[char]) -> (b: bool)
    ensures
        b == frame_ok(t@),
{
    proof {
        lemma_rfind(t@, "("@);
        lemma_rfind(t@, ")"@);
    }
    match rfind_exec(t, chars_of("(").as_slice()) {
        None => true,
        Some(open) => match rfind_exec(t, chars_of(")").as_slice()) {
            None => true,
            Some(close) => close > open,
        },
    }
}

/// Whether every frame line of a thread dump can be split.
pub fn thread_dump_is_parsable(raw: &str) -> (b: bool)
    ensures
        b == dump_frames_ok(raw@),
{
    proof {
        reveal_strlit("\"");
        reveal_strlit("at ");
    }
    let rc = chars_of(raw);
    let ls = lines_of(rc.as_slice());
    let ghost lv = lines(raw@);
    let mut header_seen = false;
    let ghost mut hdr: int = 0;
    let mut i: usize = 0;
    while i < ls.len()
        invariant
            lv == lines(raw@),
            ls@.len() == lv.len(),
            forall|j: int| 0 <= j < ls@.len() ==> (#[trigger] ls@[j])@ == lv[j],
            i <= ls@.len(),
            header_seen ==> 0 <= hdr < i && starts_with(lv[hdr], "\""@),
            !header_seen ==> forall|j: int| 0 <= j < i ==> !starts_with(lv[j], "\""@),
            forall|a: int, j: int|
                0 <= j < a < i && #[trigger] starts_with(lv[j], "\""@) && !starts_with(
                    #[trigger] lv[a],
                    "\""@,
                ) && starts_with(trim(lv[a]), "at "@) ==> frame_ok(trim(trim(lv[a]).skip(3))),
        decreases ls@.len() - i,
    {
        let line = ls[i].as_slice();
        proof {
            reveal_strlit("\"");
            reveal_strlit("at ");
        }
        if starts_with_str(line, "\"") {
            header_seen = true;
            proof {
                hdr = i as int;
            }
        } else if header_seen {
            let t = trim_chars(line);
            if starts_with_str(t.as_slice(), "at ") {
                let rest = sub_chars(t.as_slice(), 3, t.len());
                let f = trim_chars(rest.as_slice());
                assert(rest@ =~= t@.skip(3));
                if !frame_chars_ok(f.as_slice()) {
                    proof {
                        assert(starts_with(lv[hdr], "\""@));
                        assert(!starts_with(lv[i as int], "\""@));
                    }
                    return false;
                }
            }
        }
        i = i + 1;
    }
    true
}

/// Whether the collector sums of a `jcmd PerfCounter.print` text fit a `u64`.
pub fn gc_counters_fit(text: &str) -> (b: bool)
    ensures
        b == (gc_count_total(lines(text@), lines(text@).len() as int) <= u64::MAX
            && gc_time_total(lines(text@), lines(text@).len() as int) <= u64::MAX),
{
    let tc = chars_of(text);
    let ls = lines_of(tc.as_slice());
    let ghost lv = lines(text@);
    let mut count: u64 = 0;
    let mut time_ms: u64 = 0;
    let mut i: usize = 0;
    while i < ls.len()
        invariant
            lv == lines(text@),
            ls@.len() == lv.len(),
            forall|j: int| 0 <= j < ls@.len() ==> (#[trigger] ls@[j])@ == lv[j],
            i <= ls@.len(),
            count == gc_count_total(lv, i as int),
            time_ms == gc_time_total(lv, i as int),
        decreases ls@.len() - i,
    {
        let line = ls[i].as_slice();
        if contains_str(line, "sun.gc.collector") && contains_str(line, "invocations") {
            match last_token_value(line) {
                Some(v) => {
                    match count.checked_add(v) {
                        Some(c) => {
                            count = c;
                        },
                        None => {
                            proof {
                                lemma_totals_monotone(lv, i + 1, lv.len() as int);
                            }
                            return false;
                        },
                    }
                },
                None => {},
            }
        }
        if contains_str(line, "sun.gc.collector") && contains_str(line, ".time") {
            match last_token_value(line) {
                Some(v) => {
                    match time_ms.checked_add(v / 1_000_000) {
                        Some(t) => {
                            time_ms = t;
                        },
                        None => {
                            proof {
                                lemma_totals_monotone(lv, i + 1, lv.len() as int);
                            }
                            return false;
                        },
                    }
                },
                None => {},
            }
        }
        i = i + 1;
    }
    true
}

} // verus!

verus! {

/// The method key of a top frame: the qualified name of its method with the descriptor.
pub open spec fn leaf_key(leaf: Seq<char>) -> Seq<char> {
    crate::model::qualified_name(
        frame_model(leaf).class_name,
        frame_model(leaf).method_name,
        frame_model(leaf).descriptor,
    )
}

/// How many of the first `n` top frames belong to the method with this key.
pub open spec fn key_count(leaves: Seq<Seq<char>>, key: Seq<char>, n: int) -> nat
    decreases n,
{
    if n <= 0 {
        0
    } else {
        key_count(leaves, key, n - 1) + if leaf_key(leaves[n - 1]) == key {
            1nat
        } else {
            0nat
        }
    }
}

/// The per-method counts of the first `n` top frames: one entry per method key, each with the
/// number of frames of that method, and every frame's key among them.
pub proof fn lemma_jfr_counts(leaves: Seq<Seq<char>>, n: int)
    requires
        0 <= n <= leaves.len(),
    ensures
        forall|a: int, b: int|
            0 <= a < b < jfr_counts(leaves, n).len() ==> jfr_counts(leaves, n)[a].method
                != jfr_counts(leaves, n)[b].method,
        forall|i: int|
            0 <= i < jfr_counts(leaves, n).len() ==> (#[trigger] jfr_counts(leaves, n)[i]).samples
                == key_count(leaves, jfr_counts(leaves, n)[i].method, n) && jfr_counts(
                leaves,
                n,
            )[i].samples >= 1,
        forall|k: int|
            0 <= k < n ==> count_index(jfr_counts(leaves, n), leaf_key(#[trigger] leaves[k]), 0)
                is Some,
        forall|key: Seq<char>|
            count_index(jfr_counts(leaves, n), key, 0) is None ==> #[trigger] key_count(
                leaves,
                key,
                n,
            ) == 0,
    decreases n,
{
    if n > 0 {
        lemma_jfr_counts(leaves, n - 1);
        let prev = jfr_counts(leaves, n - 1);
        let cs = jfr_counts(leaves, n);
        let key = leaf_key(leaves[n - 1]);
        lemma_count_index(prev, key, 0);
        assert forall|m: Seq<char>| m != key implies key_count(leaves, m, n) == key_count(
            leaves,
            m,
            n - 1,
        ) by {}
        assert forall|m: Seq<char>| #[trigger] count_index(cs, m, 0) is Some <==> count_index(
            prev,
            m,
            0,
        ) is Some || m == key by {
            lemma_count_index(prev, m, 0);
            lemma_count_index(cs, m, 0);
            if count_index(prev, m, 0) is Some {
                let j = count_index(prev, m, 0)->0;
                assert(cs[j].method == m);
            }
            if m == key {
                match count_index(prev, key, 0) {
                    Some(k) => {
                        assert(cs[k].method == key);
                    },
                    None => {
                        assert(cs[prev.len() as int].method == key);
                    },
                }
            }
            if count_index(cs, m, 0) is Some && m != key {
                let j = count_index(cs, m, 0)->0;
                if j < prev.len() {
                    assert(prev[j].method == m);
                }
            }
        }
        match count_index(prev, key, 0) {
            Some(k) => {
                assert forall|i: int| 0 <= i < cs.len() implies (#[trigger] cs[i]).samples
                    == key_count(leaves, cs[i].method, n) && cs[i].samples >= 1 by {
                    if i != k {
                        assert(prev[i].method != prev[k].method);
                    }
                }
            },
            None => {
                assert forall|i: int| 0 <= i < cs.len() implies (#[trigger] cs[i]).samples
                    == key_count(leaves, cs[i].method, n) && cs[i].samples >= 1 by {
                    if i < prev.len() {
                        assert(prev[i].method != key);
                    } else {
                        assert(count_index(prev, key, 0) is None);
                        assert(key_count(leaves, key, n - 1) == 0);
                    }
                }
            },
        }
        assert forall|k: int| 0 <= k < n implies count_index(cs, leaf_key(#[trigger] leaves[k]), 0)
            is Some by {
            if k < n - 1 {
                assert(count_index(prev, leaf_key(leaves[k]), 0) is Some);
            }
        }
        assert forall|m: Seq<char>| count_index(cs, m, 0) is None implies #[trigger] key_count(
            leaves,
            m,
            n,
        ) == 0 by {
            assert(count_index(prev, m, 0) is None && m != key);
        }
    }
}

proof fn lemma_count_at_least_two<A>(s: Seq<A>, a: int, b: int)
    requires
        0 <= a < b < s.len(),
        s[a] == s[b],
    ensures
        s.to_multiset().count(s[a]) >= 2,
{
    broadcast use vstd::multiset::group_multiset_axioms;

    let r = s.remove(a);
    assert(r =~= s.subrange(0, a) + s.subrange(a + 1, s.len() as int));
    assert(r[b - 1] == s[b]);
    assert(r.contains(s[a]));
    assert(r.to_multiset() == s.to_multiset().remove(s[a]));
    assert(r.to_multiset().count(s[a]) > 0);
}

proof fn lemma_count_at_most_one<A>(s: Seq<A>, a: int)
    requires
        0 <= a < s.len(),
        forall|j: int| 0 <= j < s.len() && j != a ==> s[j] != s[a],
    ensures
        s.to_multiset().count(s[a]) == 1,
{
    broadcast use vstd::multiset::group_multiset_axioms;

    let r = s.remove(a);
    assert(r =~= s.subrange(0, a) + s.subrange(a + 1, s.len() as int));
    assert(!r.contains(s[a])) by {
        if r.contains(s[a]) {
            let j = choose|j: int| 0 <= j < r.len() && r[j] == s[a];
            if j < a {
                assert(s[j] == r[j]);
            } else {
                assert(s[j + 1] == r[j]);
            }
        }
    }
    assert(r.to_multiset() == s.to_multiset().remove(s[a]));
    assert(r.to_multiset().count(s[a]) == 0);
    assert(s.contains(s[a]));
}

/// The method rows of a JFR recording: at most 250, one per method key, each with the number
/// of execution samples whose top frame is that method, the most sampled first; fewer than 250
/// only when fewer methods were sampled.
pub proof fn lemma_jfr_method_rows(text: Seq<char>, out: Seq<JfrCountModel>)
    requires
        top_counts(jfr_counts(jfr_leaves(text), jfr_leaves(text).len() as int), out, 250),
    ensures
        out.len() == (if jfr_counts(jfr_leaves(text), jfr_leaves(text).len() as int).len() < 250 {
            jfr_counts(jfr_leaves(text), jfr_leaves(text).len() as int).len()
        } else {
            250
        }),
        forall|i: int, j: int| 0 <= i < j < out.len() ==> out[j].samples <= out[i].samples,
        forall|i: int, j: int| 0 <= i < j < out.len() ==> out[i].method != out[j].method,
        forall|i: int|
            0 <= i < out.len() ==> (#[trigger] out[i]).samples == key_count(
                jfr_leaves(text),
                out[i].method,
                jfr_leaves(text).len() as int,
            ) && out[i].samples >= 1,
{
    let leaves = jfr_leaves(text);
    let n = leaves.len() as int;
    let all = jfr_counts(leaves, n);
    lemma_jfr_counts(leaves, n);
    assert forall|i: int| 0 <= i < out.len() implies all.contains(#[trigger] out[i]) by {
        assert(out.contains(out[i]));
        assert(out.to_multiset().count(out[i]) > 0);
        assert(all.to_multiset().count(out[i]) > 0);
    }
    assert forall|i: int| 0 <= i < out.len() implies (#[trigger] out[i]).samples == key_count(
        leaves,
        out[i].method,
        n,
    ) && out[i].samples >= 1 by {
        assert(all.contains(out[i]));
        let k = choose|k: int| 0 <= k < all.len() && all[k] == out[i];
        assert(all[k].samples == key_count(leaves, all[k].method, n));
    }
    assert forall|i: int, j: int| 0 <= i < j < out.len() implies out[i].method != out[j].method by {
        if out[i].method == out[j].method {
            assert(all.contains(out[i]) && all.contains(out[j]));
            let ki = choose|k: int| 0 <= k < all.len() && all[k] == out[i];
            let kj = choose|k: int| 0 <= k < all.len() && all[k] == out[j];
            if ki != kj {
                if ki < kj {
                    assert(all[ki].method != all[kj].method);
                } else {
                    assert(all[kj].method != all[ki].method);
                }
            }
            assert(out[i] == out[j]);
            lemma_count_at_least_two(out, i, j);
            assert forall|q: int| 0 <= q < all.len() && q != ki implies all[q] != all[ki] by {
                if q < ki {
                    assert(all[q].method != all[ki].method);
                } else {
                    assert(all[ki].method != all[q].method);
                }
            }
            lemma_count_at_most_one(all, ki);
            assert(out.to_multiset().count(out[i]) <= all.to_multiset().count(out[i]));
        }
    }
}

} // verus!

verus! {

/// A line of a thread dump starts a thread.
pub open spec fn is_header_line(line: Seq<char>) -> bool {
    starts_with(line, "\""@)
}

/// The positions of the header lines among the first `n` lines.
pub open spec fn header_lines(ls: Seq<Seq<char>>, n: int) -> Seq<int> {
    crate::app::positions_where(|i: int| is_header_line(ls[i]), n)
}

/// Where the block of the `i`-th of the headers `hs` ends: at the next header, or at `n`.
pub open spec fn block_end(hs: Seq<int>, i: int, n: int) -> int {
    if i + 1 < hs.len() {
        hs[i + 1]
    } else {
        n
    }
}

/// A thread after the lines `ls[from..to]` of its block.
pub open spec fn read_block(t: ThreadModel, ls: Seq<Seq<char>>, from: int, to: int) -> ThreadModel
    decreases to - from,
{
    if to <= from {
        t
    } else {
        thread_body(read_block(t, ls, from, to - 1), ls[to - 1])
    }
}

/// The thread of the `i`-th header among the headers `hs` of the first `n` lines.
pub open spec fn thread_of_block(ls: Seq<Seq<char>>, hs: Seq<int>, i: int, n: int) -> ThreadModel {
    read_block(thread_header(ls[hs[i]]), ls, hs[i] + 1, block_end(hs, i, n))
}

proof fn lemma_dump_state_blocks(ls: Seq<Seq<char>>, n: int)
    requires
        0 <= n <= ls.len(),
    ensures
        ({
            let hs = header_lines(ls, n);
            let st = dump_state(ls, n);
            &&& hs.len() == 0 ==> st.0.len() == 0 && st.1 is None
            &&& hs.len() > 0 ==> st.0.len() == hs.len() - 1 && st.1 == Some(
                thread_of_block(ls, hs, hs.len() - 1, n),
            )
            &&& forall|i: int| 0 <= i < st.0.len() ==> #[trigger] st.0[i] == thread_of_block(ls, hs, i, n)
        }),
    decreases n,
{
    if n > 0 {
        lemma_dump_state_blocks(ls, n - 1);
        let pick = |i: int| is_header_line(ls[i]);
        let hp = header_lines(ls, n - 1);
        let hs = header_lines(ls, n);
        crate::app::lemma_positions_where_members(pick, n - 1);
        let prev = dump_state(ls, n - 1);
        let st = dump_state(ls, n);
        if is_header_line(ls[n - 1]) {
            assert(hs == hp.push(n - 1));
            assert forall|i: int| 0 <= i < st.0.len() implies #[trigger] st.0[i] == thread_of_block(
                ls,
                hs,
                i,
                n,
            ) by {
                assert(hs[i] == hp[i]);
                if i < prev.0.len() {
                    assert(block_end(hs, i, n) == block_end(hp, i, n - 1));
                } else {
                    assert(block_end(hs, i, n) == n - 1);
                    assert(block_end(hp, i, n - 1) == n - 1);
                }
            }
            assert(read_block(thread_header(ls[n - 1]), ls, n, n) == thread_header(ls[n - 1]));
        } else {
            assert(hs == hp);
            if hp.len() > 0 {
                let last = hp.len() - 1;
                assert(hp[last] < n - 1);
                assert(thread_of_block(ls, hs, last, n) == thread_body(
                    thread_of_block(ls, hp, last, n - 1),
                    ls[n - 1],
                ));
                assert forall|i: int| 0 <= i < st.0.len() implies #[trigger] st.0[i]
                    == thread_of_block(ls, hs, i, n) by {
                    assert(block_end(hs, i, n) == block_end(hp, i, n - 1));
                }
            }
        }
    }
}

/// The threads of a dump are its header lines (those starting with `"`), one each and in
/// order: each thread is its header read on through the lines up to the next header (or the
/// end); lines before the first header are ignored.
pub proof fn lemma_dump_threads_blocks(raw: Seq<char>)
    ensures
        dump_threads(raw).len() == header_lines(lines(raw), lines(raw).len() as int).len(),
        forall|i: int|
            0 <= i < dump_threads(raw).len() ==> #[trigger] dump_threads(raw)[i] == thread_of_block(
                lines(raw),
                header_lines(lines(raw), lines(raw).len() as int),
                i,
                lines(raw).len() as int,
            ),
{
    let ls = lines(raw);
    lemma_dump_state_blocks(ls, ls.len() as int);
}

/// The frames of the lines `ls[from..to]`: each line that, trimmed, starts with `at ` (and is no
/// state line), without that prefix.
pub open spec fn block_frames(ls: Seq<Seq<char>>, from: int, to: int) -> Seq<Seq<char>>
    decreases to - from,
{
    if to <= from {
        Seq::empty()
    } else {
        let tr = trim(ls[to - 1]);
        if !starts_with(tr, "java.lang.Thread.State:"@) && starts_with(tr, "at "@) {
            block_frames(ls, from, to - 1).push(tr.skip(3))
        } else {
            block_frames(ls, from, to - 1)
        }
    }
}

/// The state that the lines `ls[from..to]` leave: the first word after the last
/// `java.lang.Thread.State:` line, `UNKNOWN` where that line has none or there is no such line.
pub open spec fn block_state(ls: Seq<Seq<char>>, from: int, to: int) -> Seq<char>
    decreases to - from,
{
    if to <= from {
        "UNKNOWN"@
    } else {
        let tr = trim(ls[to - 1]);
        if starts_with(tr, "java.lang.Thread.State:"@) {
            let toks = tokens(tr.skip(23));
            if toks.len() > 0 {
                toks[0]
            } else {
                "UNKNOWN"@
            }
        } else {
            block_state(ls, from, to - 1)
        }
    }
}

/// A trimmed line of a block counts as a monitor line: it names a monitor (and is neither a
/// state line nor a frame).
pub open spec fn block_monitor(tr: Seq<char>) -> bool {
    !starts_with(tr, "java.lang.Thread.State:"@) && !starts_with(tr, "at "@) && is_monitor_line(tr)
}

/// The monitor of the first monitor line among `ls[from..to]`, if any.
pub open spec fn block_lock(ls: Seq<Seq<char>>, from: int, to: int) -> Option<LockModel>
    decreases to - from,
{
    if to <= from {
        None
    } else {
        match block_lock(ls, from, to - 1) {
            Some(l) => Some(l),
            None => if block_monitor(trim(ls[to - 1])) {
                Some(lock_model(trim(ls[to - 1])))
            } else {
                None
            },
        }
    }
}

proof fn lemma_frame_line_len(tr0: Seq<char>)
    requires
        starts_with(trim(tr0), "at "@),
    ensures
        trim(tr0).skip(3).len() > 0,
{
    crate::text::lemma_prev_non_ws(tr0, tr0.len() as int);
    crate::text::lemma_next_non_ws(tr0, 0);
    reveal_strlit("at ");
    let tr = trim(tr0);
    assert(tr.len() >= 3);
    if tr.len() == 3 {
        let a = crate::text::next_non_ws(tr0, 0);
        let b = crate::text::prev_non_ws(tr0, tr0.len() as int);
        assert(a < b);
        assert(tr == tr0.subrange(a, b));
        assert(tr.subrange(0, 3) =~= "at "@);
        assert(tr[2] == "at "@[2]);
        assert(tr[2] == ' ');
        assert(tr0[b - 1] == tr[2]);
    }
}

proof fn lemma_read_block_fields(h: Seq<char>, ls: Seq<Seq<char>>, from: int, to: int)
    requires
        from <= to,
    ensures
        ({
            let t = read_block(thread_header(h), ls, from, to);
            &&& t.name == thread_header(h).name
            &&& t.nid == thread_header(h).nid
            &&& t.frames == block_frames(ls, from, to)
            &&& t.stack_trace == block_frames(ls, from, to).map_values(|f: Seq<char>| frame_model(f))
            &&& t.top_frame == (if block_frames(ls, from, to).len() > 0 {
                block_frames(ls, from, to)[0]
            } else {
                Seq::<char>::empty()
            })
            &&& t.state == block_state(ls, from, to)
            &&& t.lock_info == block_lock(ls, from, to)
        }),
    decreases to - from,
{
    reveal_strlit("UNKNOWN");
    if to > from {
        lemma_read_block_fields(h, ls, from, to - 1);
        let t0 = read_block(thread_header(h), ls, from, to - 1);
        let tr = trim(ls[to - 1]);
        let fr0 = block_frames(ls, from, to - 1);
        if !starts_with(tr, "java.lang.Thread.State:"@) && starts_with(tr, "at "@) {
            lemma_frame_line_len(ls[to - 1]);
            if fr0.len() > 0 {
                assert forall|q: int| 0 <= q < fr0.len() implies (#[trigger] fr0[q]).len() > 0 by {
                    lemma_frames_nonempty(ls, from, to - 1);
                }
            }
            assert(block_frames(ls, from, to).map_values(|f: Seq<char>| frame_model(f)) =~= fr0.map_values(
                |f: Seq<char>| frame_model(f),
            ).push(frame_model(tr.skip(3))));
        }
    } else {
        assert(block_frames(ls, from, to).map_values(|f: Seq<char>| frame_model(f)) =~= Seq::<
            FrameModel,
        >::empty());
    }
}

proof fn lemma_frames_nonempty(ls: Seq<Seq<char>>, from: int, to: int)
    ensures
        forall|q: int| 0 <= q < block_frames(ls, from, to).len() ==> (#[trigger] block_frames(
            ls,
            from,
            to,
        )[q]).len() > 0,
    decreases to - from,
{
    if to > from {
        lemma_frames_nonempty(ls, from, to - 1);
        let tr = trim(ls[to - 1]);
        let prev = block_frames(ls, from, to - 1);
        if !starts_with(tr, "java.lang.Thread.State:"@) && starts_with(tr, "at "@) {
            lemma_frame_line_len(ls[to - 1]);
            let cur = block_frames(ls, from, to);
            assert(cur == prev.push(tr.skip(3)));
            assert forall|q: int| 0 <= q < cur.len() implies (#[trigger] cur[q]).len() > 0 by {
                if q < prev.len() {
                    assert(cur[q] == prev[q]);
                }
            }
        }
    }
}

/// A thread of a dump, read from its header line `h` and the lines `ls[from..to]` of its block:
/// its name is the text between the header's first two `"`; its frames are the block's lines
/// that, trimmed, start with `at `, without that prefix, in order, and its stack trace parses
/// each of them; its top frame is the first of them (empty without one); its state is the first
/// word after the block's last `java.lang.Thread.State:` line (`UNKNOWN` without one); and its
/// lock comes from the block's first monitor line alone (none without one).
pub proof fn lemma_thread_block(h: Seq<char>, ls: Seq<Seq<char>>, from: int, to: int)
    requires
        from <= to,
    ensures
        read_block(thread_header(h), ls, from, to).name == split_on(h, '"')[1],
        read_block(thread_header(h), ls, from, to).frames == block_frames(ls, from, to),
        read_block(thread_header(h), ls, from, to).stack_trace == block_frames(ls, from, to).map_values(
            |f: Seq<char>| frame_model(f),
        ),
        read_block(thread_header(h), ls, from, to).top_frame == (if block_frames(ls, from, to).len()
            > 0 {
            block_frames(ls, from, to)[0]
        } else {
            Seq::<char>::empty()
        }),
        read_block(thread_header(h), ls, from, to).state == block_state(ls, from, to),
        read_block(thread_header(h), ls, from, to).lock_info == block_lock(ls, from, to),
{
    lemma_read_block_fields(h, ls, from, to);
}

} // verus!
