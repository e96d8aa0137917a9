use vstd::prelude::*;

use crate::jvm::{after_last, after_last_exec, same_chars};
use crate::text::{decimal, decimal_chars, push_all, push_str, lines, lines_of, parse_u16,
    parse_u32, parse_unsigned, chars_of, ends_with, ends_with_str, lemma_rfind, replace_char, replace_char_exec, rfind,
    rfind_exec, starts_with, starts_with_str, string_of, sub_chars, trim, trim_chars,
    trim_end_str, trim_end_str_exec,
};

verus! {

/// The main class of a JVM as a path: trimmed, without trailing `.jar`, with `/` for `\`.
pub open spec fn normalized_main(main_class: Seq<char>) -> Seq<char> {
    replace_char(trim_end_str(trim(main_class), ".jar"@), '\\', '/')
}

/// A package whose classes are never instrumented by default: the JDK's and common
/// libraries'.
pub open spec fn library_package(p: Seq<char>) -> bool {
    starts_with(p, "java."@) || starts_with(p, "javax."@) || starts_with(p, "jdk."@)
        || starts_with(p, "sun."@) || starts_with(p, "com.sun."@) || starts_with(
        p,
        "org.apache."@,
    ) || starts_with(p, "org.springframework."@) || starts_with(p, "com.google."@)
}

/// The package to instrument by default for a JVM's main class: the package of the class named
/// after the last `/`, unless the main class is unknown, a `java` launcher, a path without a
/// dot, a class without a package, or a class of the JDK or of a common library.
pub open spec fn instrument_include(main_class: Seq<char>) -> Option<Seq<char>> {
    let n = normalized_main(main_class);
    if n.len() == 0 || n == "<unknown>"@ || ends_with(n, "/java"@) || ends_with(n, "/javaw"@) {
        None
    } else if n.contains('/') && !n.contains('.') {
        None
    } else {
        let c = after_last(n, '/');
        match rfind(c, "."@) {
            None => None,
            Some(i) => if library_package(c.take(i)) {
                None
            } else {
                Some(c.take(i))
            },
        }
    }
}

/// Whether `s` holds `c`.
fn has_char(s: &[char], c: char) -> (b: bool)
    ensures
        b == s@.contains(c),
{
    let mut i: usize = 0;
    while i < s.len()
        invariant
            i <= s@.len(),
            forall|k: int| 0 <= k < i ==> s@[k] != c,
        decreases s@.len() - i,
    {
        if s[i] == c {
            assert(s@[i as int] == c);
            return true;
        }
        i = i + 1;
    }
    false
}

/// The package to instrument by default for a JVM's main class.
pub fn default_instrument_include(main_class: &str) -> (r: Option<String>)
    ensures
        match instrument_include(main_class@) {
            None => r is None,
            Some(p) => r is Some && r.unwrap()@ == p,
        },
{
    let t = trim_chars(chars_of(main_class).as_slice());
    let jar = chars_of(".jar");
    let stripped = trim_end_str_exec(t.as_slice(), jar.as_slice());
    let n = replace_char_exec(stripped.as_slice(), '\\', '/');
    let unknown = chars_of("<unknown>");
    if n.len() == 0 || same_chars(n.as_slice(), unknown.as_slice()) || ends_with_str(
        n.as_slice(),
        "/java",
    ) || ends_with_str(n.as_slice(), "/javaw") {
        return None;
    }
    if has_char(n.as_slice(), '/') && !has_char(n.as_slice(), '.') {
        return None;
    }
    let c = after_last_exec(n.as_slice(), '/');
    let dot = chars_of(".");
    match rfind_exec(c.as_slice(), dot.as_slice()) {
        None => None,
        Some(i) => {
            proof {
                lemma_rfind(c@, "."@);
            }
            let pkg = sub_chars(c.as_slice(), 0, i);
            assert(pkg@ =~= c@.take(i as int));
            let p = pkg.as_slice();
            if starts_with_str(p, "java.") || starts_with_str(p, "javax.") || starts_with_str(
                p,
                "jdk.",
            ) || starts_with_str(p, "sun.") || starts_with_str(p, "com.sun.") || starts_with_str(
                p,
                "org.apache.",
            ) || starts_with_str(p, "org.springframework.") || starts_with_str(p, "com.google.") {
                None
            } else {
                Some(string_of(p))
            }
        },
    }
}

/// The operating systems the native agent library is built for.
#[derive(Clone, Copy, PartialEq, Eq, Structural, Debug)]
pub enum TargetOs {
    Windows,
    MacOs,
    Other,
}

/// The file name of the native agent library on an operating system.
pub open spec fn native_library_name(os: TargetOs) -> Seq<char> {
    match os {
        TargetOs::Windows => "jvmti_agent_rust.dll"@,
        TargetOs::MacOs => "libjvmti_agent_rust.dylib"@,
        TargetOs::Other => "libjvmti_agent_rust.so"@,
    }
}

/// The file name of the native agent library on an operating system.
pub fn native_library_file_name(os: TargetOs) -> (r: &'static str)
    ensures
        r@ == native_library_name(os),
{
    match os {
        TargetOs::Windows => "jvmti_agent_rust.dll",
        TargetOs::MacOs => "libjvmti_agent_rust.dylib",
        TargetOs::Other => "libjvmti_agent_rust.so",
    }
}

/// The agent ports tried first and last when looking for a running agent.
pub const AGENT_PORT_MIN: u16 = 8840;

/// The highest agent port.
pub const AGENT_PORT_MAX: u16 = 8999;

/// A port is among the candidates: the preferred port, or a port the JVM listens on within the
/// agent range.
pub open spec fn is_candidate(pid_ports: Seq<u16>, preferred: u16, p: int) -> bool {
    p == preferred || (AGENT_PORT_MIN <= p <= AGENT_PORT_MAX && pid_ports.contains(p as u16))
}

/// The ports to probe for a running agent: the candidates in ascending order, each once, with
/// the preferred port swapped to the front.
pub open spec fn port_candidates(pid_ports: Seq<u16>, preferred: u16) -> Seq<u16> {
    let sorted = crate::app::positions_where(
        |p: int| is_candidate(pid_ports, preferred, p),
        0x10000,
    ).map_values(|p: int| p as u16);
    match crate::app::positions_where(|p: int| is_candidate(pid_ports, preferred, p), 0x10000).index_of_first(
        preferred as int,
    ) {
        Some(i) => sorted.update(0, sorted[i]).update(i, sorted[0]),
        None => sorted,
    }
}

fn has_port(ports: &[u16], p: u16) -> (b: bool)
    ensures
        b == ports@.contains(p),
{
    let mut i: usize = 0;
    while i < ports.len()
        invariant
            i <= ports@.len(),
            forall|k: int| 0 <= k < i ==> ports@[k] != p,
        decreases ports@.len() - i,
    {
        if ports[i] == p {
            assert(ports@[i as int] == p);
            return true;
        }
        i = i + 1;
    }
    false
}

/// The ports to probe for a running agent, the preferred one first.
pub fn attach_port_candidates(pid_ports: &[u16], preferred: u16) -> (out: Vec<u16>)
    ensures
        out@ == port_candidates(pid_ports@, preferred),
{
    let ghost pick = |p: int| is_candidate(pid_ports@, preferred, p);
    let mut out: Vec<u16> = Vec::new();
    let mut front: usize = 0;
    let mut found = false;
    let mut p: u32 = 0;
    proof {
        let empty = crate::app::positions_where(pick, 0);
        assert(empty =~= Seq::<int>::empty());
        empty.index_of_first_ensures(preferred as int);
    }
    while p < 0x10000
        invariant
            p <= 0x10000,
            pick == (|p: int| is_candidate(pid_ports@, preferred, p)),
            out@ == crate::app::positions_where(pick, p as int).map_values(|q: int| q as u16),
            found == crate::app::positions_where(pick, p as int).contains(preferred as int),
            found ==> front < out@.len() && out@[front as int] == preferred
                && crate::app::positions_where(pick, p as int).index_of_first(preferred as int)
                == Some(front as int),
            !found ==> crate::app::positions_where(pick, p as int).index_of_first(preferred as int)
                is None,
            forall|k: int| 0 <= k < out@.len() ==> out@[k] < p,
        decreases 0x10000 - p,
    {
        let v = p as u16;
        let keep = v == preferred || (AGENT_PORT_MIN <= v && v <= AGENT_PORT_MAX && has_port(
            pid_ports,
            v,
        ));
        assert(keep == pick(p as int));
        let ghost before = crate::app::positions_where(pick, p as int);
        if keep {
            if v == preferred {
                front = out.len();
                found = true;
            }
            out.push(v);
        }
        p = p + 1;
        proof {
            let now = crate::app::positions_where(pick, p as int);
            assert(out@ =~= now.map_values(|q: int| q as u16));
            if keep {
                assert(now == before.push(p - 1));
            } else {
                assert(now == before);
            }
            crate::app::lemma_positions_where_first(pick, p as int, preferred as int);
        }
    }
    if found {
        let first = out[0];
        let chosen = out[front];
        out.set(0, chosen);
        out.set(front, first);
    }
    out
}

/// A port can take a new agent: nobody else listens on it, nobody listens on it at all, and it
/// can be bound.
pub open spec fn port_usable_spec(owners: Seq<u32>, pid: u32, can_bind: bool) -> bool {
    !(exists|i: int| 0 <= i < owners.len() && owners[i] != pid) && owners.len() == 0 && can_bind
}

/// Whether a port can take a new agent.
pub fn port_is_usable_for_attach(owners: &[u32], pid: u32, can_bind: bool) -> (b: bool)
    ensures
        b == port_usable_spec(owners@, pid, can_bind),
{
    let mut i: usize = 0;
    while i < owners.len()
        invariant
            i <= owners@.len(),
            forall|k: int| 0 <= k < i ==> owners@[k] == pid,
        decreases owners@.len() - i,
    {
        if owners[i] != pid {
            return false;
        }
        i = i + 1;
    }
    owners.len() == 0 && can_bind
}

/// A listening port belongs to the JVM: nobody listens on it, or the JVM does.
pub fn owned_by(owners: &[u32], pid: u32) -> (b: bool)
    ensures
        b == (owners@.len() == 0 || owners@.contains(pid)),
{
    if owners.len() == 0 {
        return true;
    }
    let mut i: usize = 0;
    while i < owners.len()
        invariant
            i <= owners@.len(),
            forall|k: int| 0 <= k < i ==> owners@[k] != pid,
        decreases owners@.len() - i,
    {
        if owners[i] == pid {
            assert(owners@[i as int] == pid);
            return true;
        }
        i = i + 1;
    }
    false
}

/// The agent's option string: its port and JDBC mode (native with the library's path, else by
/// probe id), then the instrumented packages when there are any.
pub open spec fn agent_options(port: u16, native: Option<Seq<char>>, includes: Option<Seq<char>>) -> Seq<
    char,
> {
    let head = match native {
        Some(path) => "port="@ + decimal(port as nat) + ",native="@ + path
            + ",jdbc=true,jdbcMode=native"@,
        None => "port="@ + decimal(port as nat) + ",jdbc=true,jdbcMode=id"@,
    };
    match includes {
        Some(i) => if i.len() > 0 {
            head + ",includes="@ + i
        } else {
            head
        },
        None => head,
    }
}

/// The agent's option string.
pub fn agent_arguments(port: u16, native: Option<&str>, includes: Option<&str>) -> (r: String)
    ensures
        r@ == agent_options(
            port,
            match native {
                Some(p) => Some(p@),
                None => None,
            },
            match includes {
                Some(i) => Some(i@),
                None => None,
            },
        ),
{
    let mut out = chars_of("port=");
    push_all(&mut out, decimal_chars(port as u64).as_slice());
    match native {
        Some(path) => {
            push_str(&mut out, ",native=");
            push_str(&mut out, path);
            push_str(&mut out, ",jdbc=true,jdbcMode=native");
        },
        None => {
            push_str(&mut out, ",jdbc=true,jdbcMode=id");
        },
    }
    match includes {
        Some(i) => {
            if !i.is_empty() {
                push_str(&mut out, ",includes=");
                push_str(&mut out, i);
            }
        },
        None => {},
    }
    string_of(out.as_slice())
}


/// The numbers that the lines of a command's output hold, in order: each line trimmed, and
/// those that are not a decimal number up to `max` left out.
pub open spec fn numbers_of_lines(ls: Seq<Seq<char>>, max: nat) -> Seq<nat>
    decreases ls.len(),
{
    if ls.len() == 0 {
        Seq::empty()
    } else {
        let rest = numbers_of_lines(ls.drop_last(), max);
        match parse_unsigned(trim(ls.last()), 10, max) {
            Some(v) => rest.push(v),
            None => rest,
        }
    }
}

/// The process ids that the listing of a port's owners holds, one per line.
pub fn owner_pids_from_output(text: &str) -> (out: Vec<u32>)
    ensures
        out@.map_values(|x: u32| x as nat) == numbers_of_lines(lines(text@), u32::MAX as nat),
{
    let tc = chars_of(text);
    let ls = lines_of(tc.as_slice());
    let ghost lv = lines(text@);
    let mut out: Vec<u32> = Vec::new();
    let mut i: usize = 0;
    while i < ls.len()
        invariant
            i <= ls@.len(),
            ls@.len() == lv.len(),
            lv == lines(text@),
            forall|j: int| 0 <= j < ls@.len() ==> (#[trigger] ls@[j])@ == lv[j],
            out@.map_values(|x: u32| x as nat) == numbers_of_lines(lv.take(i as int), u32::MAX as nat),
        decreases ls@.len() - i,
    {
        let t = trim_chars(ls[i].as_slice());
        let parsed = parse_u32(t.as_slice());
        proof {
            assert(lv.take(i + 1).drop_last() =~= lv.take(i as int));
            assert(lv.take(i + 1).last() == ls@[i as int]@);
        }
        match parsed {
            Some(v) => {
                out.push(v);
            },
            None => {},
        }
        proof {
            assert(out@.map_values(|x: u32| x as nat) =~= numbers_of_lines(
                lv.take(i + 1),
                u32::MAX as nat,
            ));
        }
        i = i + 1;
    }
    proof {
        assert(lv.take(ls@.len() as int) =~= lv);
    }
    out
}

/// The ports that the listing of a process's listening sockets holds, one per line.
pub fn ports_from_output(text: &str) -> (out: Vec<u16>)
    ensures
        out@.map_values(|x: u16| x as nat) == numbers_of_lines(lines(text@), u16::MAX as nat),
{
    let tc = chars_of(text);
    let ls = lines_of(tc.as_slice());
    let ghost lv = lines(text@);
    let mut out: Vec<u16> = Vec::new();
    let mut i: usize = 0;
    while i < ls.len()
        invariant
            i <= ls@.len(),
            ls@.len() == lv.len(),
            lv == lines(text@),
            forall|j: int| 0 <= j < ls@.len() ==> (#[trigger] ls@[j])@ == lv[j],
            out@.map_values(|x: u16| x as nat) == numbers_of_lines(lv.take(i as int), u16::MAX as nat),
        decreases ls@.len() - i,
    {
        let t = trim_chars(ls[i].as_slice());
        let parsed = parse_u16(t.as_slice());
        proof {
            assert(lv.take(i + 1).drop_last() =~= lv.take(i as int));
            assert(lv.take(i + 1).last() == ls@[i as int]@);
        }
        match parsed {
            Some(v) => {
                out.push(v);
            },
            None => {},
        }
        proof {
            assert(out@.map_values(|x: u16| x as nat) =~= numbers_of_lines(
                lv.take(i + 1),
                u16::MAX as nat,
            ));
        }
        i = i + 1;
    }
    proof {
        assert(lv.take(ls@.len() as int) =~= lv);
    }
    out
}

/// The lowest port a new agent is attached on.
pub const ATTACH_PORT_MIN: u16 = 8849;

/// The ports tried for a new agent, in order: the preferred one, then the attach range upward.
pub open spec fn attach_port_order_spec(preferred: u16) -> Seq<u16> {
    seq![preferred] + Seq::new(
        (AGENT_PORT_MAX - ATTACH_PORT_MIN + 1) as nat,
        |i: int| (ATTACH_PORT_MIN + i) as u16,
    )
}

/// The ports tried for a new agent, in order.
pub fn attach_port_order(preferred: u16) -> (out: Vec<u16>)
    ensures
        out@ == attach_port_order_spec(preferred),
{
    let mut out: Vec<u16> = Vec::new();
    out.push(preferred);
    let mut p: u16 = ATTACH_PORT_MIN;
    while p <= AGENT_PORT_MAX
        invariant
            ATTACH_PORT_MIN <= p <= AGENT_PORT_MAX + 1,
            out@ == seq![preferred] + Seq::new(
                (p - ATTACH_PORT_MIN) as nat,
                |i: int| (ATTACH_PORT_MIN + i) as u16,
            ),
        decreases AGENT_PORT_MAX + 1 - p,
    {
        out.push(p);
        p = p + 1;
        proof {
            assert(out@ =~= seq![preferred] + Seq::new(
                (p - ATTACH_PORT_MIN) as nat,
                |i: int| (ATTACH_PORT_MIN + i) as u16,
            ));
        }
    }
    out
}

} // verus!
