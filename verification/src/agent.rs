use vstd::prelude::*;

use crate::order::{desc_order_of, lemma_desc_order_congruent, lemma_desc_order_picked, stable_order_desc};
use crate::text::{
    chars_of, decimal, decimal_chars, join, join_from, push_all, push_str, replace_char,
    replace_char_exec, starts_with, starts_with_str, string_of, sub_chars,
};

verus! {

/// The Java name of a primitive type descriptor, if `s` is one.
pub open spec fn primitive_name(s: Seq<char>) -> Option<Seq<char>> {
    if s == seq!['B'] {
        Some("byte"@)
    } else if s == seq!['C'] {
        Some("char"@)
    } else if s == seq!['D'] {
        Some("double"@)
    } else if s == seq!['F'] {
        Some("float"@)
    } else if s == seq!['I'] {
        Some("int"@)
    } else if s == seq!['J'] {
        Some("long"@)
    } else if s == seq!['S'] {
        Some("short"@)
    } else if s == seq!['Z'] {
        Some("boolean"@)
    } else {
        None
    }
}

/// How many `[` open a type signature.
pub open spec fn array_depth(s: Seq<char>) -> nat
    decreases s.len(),
{
    if s.len() > 0 && s[0] == '[' {
        1 + array_depth(s.skip(1))
    } else {
        0
    }
}

/// `[]` repeated `n` times.
pub open spec fn brackets(n: nat) -> Seq<char>
    decreases n,
{
    if n == 0 {
        seq![]
    } else {
        brackets((n - 1) as nat) + seq!['[', ']']
    }
}

/// The Java name of the type that a JVM type signature denotes: an object type `Lpkg/Name;`
/// as `pkg.Name`, a primitive by its keyword, anything else with `/` as `.`, followed by `[]`
/// for each array dimension.
pub open spec fn class_name_of_signature(sig: Seq<char>) -> Seq<char> {
    let d = array_depth(sig);
    let rest = sig.skip(d as int);
    let base = if rest.len() >= 2 && rest[0] == 'L' && rest.last() == ';' {
        replace_char(rest.subrange(1, rest.len() - 1), '/', '.')
    } else {
        match primitive_name(rest) {
            Some(p) => p,
            None => replace_char(rest, '/', '.'),
        }
    };
    base + brackets(d)
}

fn single_char(s: &[char], c: char) -> (b: bool)
    ensures
        b == (s@ == seq![c]),
{
    if s.len() == 1 && s[0] == c {
        assert(s@ =~= seq![c]);
        true
    } else {
        false
    }
}

/// The Java name of the type that a JVM type signature denotes.
pub fn class_name_from_signature(signature: &str) -> (r: String)
    ensures
        r@ == class_name_of_signature(signature@),
{
    let s = chars_of(signature);
    let mut d: usize = 0;
    assert(s@.skip(0) =~= s@);
    while d < s.len() && s[d] == '['
        invariant
            d <= s@.len(),
            array_depth(s@) == d + array_depth(s@.skip(d as int)),
        decreases s@.len() - d,
    {
        assert(s@.skip(d as int).skip(1) =~= s@.skip(d + 1));
        d = d + 1;
    }
    let rest = sub_chars(s.as_slice(), d, s.len());
    assert(rest@ =~= s@.skip(d as int));
    let n = rest.len();
    let mut out: Vec<char> = if n >= 2 && rest[0] == 'L' && rest[n - 1] == ';' {
        let mid = sub_chars(rest.as_slice(), 1, n - 1);
        replace_char_exec(mid.as_slice(), '/', '.')
    } else {
        let r = rest.as_slice();
        if single_char(r, 'B') {
            chars_of("byte")
        } else if single_char(r, 'C') {
            chars_of("char")
        } else if single_char(r, 'D') {
            chars_of("double")
        } else if single_char(r, 'F') {
            chars_of("float")
        } else if single_char(r, 'I') {
            chars_of("int")
        } else if single_char(r, 'J') {
            chars_of("long")
        } else if single_char(r, 'S') {
            chars_of("short")
        } else if single_char(r, 'Z') {
            chars_of("boolean")
        } else {
            replace_char_exec(r, '/', '.')
        }
    };
    let ghost base = out@;
    let mut k: usize = 0;
    while k < d
        invariant
            k <= d,
            out@ == base + brackets(k as nat),
        decreases d - k,
    {
        out.push('[');
        out.push(']');
        k = k + 1;
        assert(out@ =~= base + brackets(k as nat));
    }
    proof {
        assert(array_depth(s@.skip(d as int)) == 0);
    }
    string_of(out.as_slice())
}

/// A class of the agent or of a library it uses, whose allocations are not the application's.
pub open spec fn skipped_top_class(class_name: Seq<char>) -> bool {
    starts_with(class_name, "com.openprofiler.agent."@) || starts_with(
        class_name,
        "com.openprofiler.protocol."@,
    ) || starts_with(class_name, "com.google.protobuf."@) || starts_with(
        class_name,
        "org.objectweb.asm."@,
    )
}

/// Whether an allocation whose innermost frame is in this class is left out.
pub fn should_skip_allocation_top_frame(class_name: &str) -> (b: bool)
    ensures
        b == skipped_top_class(class_name@),
{
    let c = chars_of(class_name);
    starts_with_str(c.as_slice(), "com.openprofiler.agent.") || starts_with_str(
        c.as_slice(),
        "com.openprofiler.protocol.",
    ) || starts_with_str(c.as_slice(), "com.google.protobuf.") || starts_with_str(
        c.as_slice(),
        "org.objectweb.asm.",
    )
}

/// The decimal numbers of a path of method ids.
pub open spec fn path_digits(path: Seq<usize>) -> Seq<Seq<char>> {
    path.map_values(|id: usize| decimal(id as nat))
}

/// The key of an allocation path: its method ids in decimal, joined by `>`.
pub open spec fn path_key(path: Seq<usize>) -> Seq<char> {
    join(path_digits(path), ">"@)
}

/// The key of an allocation path.
pub fn allocation_path_key(path: &[usize]) -> (k: String)
    ensures
        k@ == path_key(path@),
{
    let mut parts: Vec<Vec<char>> = Vec::new();
    let mut i: usize = 0;
    while i < path.len()
        invariant
            i <= path@.len(),
            parts@.map_values(|v: Vec<char>| v@) == path_digits(path@).take(i as int),
        decreases path@.len() - i,
    {
        let ghost before = parts@;
        let digits = decimal_chars(path[i] as u64);
        assert(digits@ == decimal(path@[i as int] as nat));
        parts.push(digits);
        assert(parts@.map_values(|v: Vec<char>| v@) =~= before.map_values(|v: Vec<char>| v@).push(
            digits@,
        ));
        i = i + 1;
        assert(parts@.map_values(|v: Vec<char>| v@) =~= path_digits(path@).take(i as int));
    }
    let out = join_from(&parts, 0, ">");
    proof {
        assert(parts@.skip(0) =~= parts@);
        assert(path_digits(path@).take(path@.len() as int) =~= path_digits(path@));
    }
    string_of(out.as_slice())
}

/// Text fit for a tab-separated line: tabs and line breaks as spaces.
pub open spec fn tsv_text(s: Seq<char>) -> Seq<char> {
    replace_char(replace_char(replace_char(s, '\t', ' '), '\r', ' '), '\n', ' ')
}

/// Text fit for a tab-separated line.
pub fn tsv_clean(value: &str) -> (r: String)
    ensures
        r@ == tsv_text(value@),
{
    let a = replace_char_exec(chars_of(value).as_slice(), '\t', ' ');
    let b = replace_char_exec(a.as_slice(), '\r', ' ');
    let c = replace_char_exec(b.as_slice(), '\n', ' ');
    string_of(c.as_slice())
}

/// The number of JDBC probes.
pub const JDBC_PROBE_COUNT: usize = 12;

/// Whether a JDBC probe id names a probe.
pub fn is_valid_jdbc_probe_id(probe_id: i32) -> (b: bool)
    ensures
        b == (0 <= probe_id < JDBC_PROBE_COUNT),
{
    probe_id >= 0 && (probe_id as usize) < JDBC_PROBE_COUNT
}

/// What one JDBC probe has measured.
#[derive(Clone, Copy, PartialEq, Eq, Structural, Debug)]
pub struct JdbcStats {
    pub self_duration_nano: u64,
    pub total_duration_nano: u64,
    pub invocations: u64,
}

/// The JDBC probes of one thread: the probes entered and not yet left, with their start times,
/// and what every probe has measured.
#[derive(Clone, Debug)]
pub struct JdbcProbes {
    pub stack: Vec<(i32, i64)>,
    pub stats: Vec<JdbcStats>,
}

/// `a + b` wrapping around at 2^64.
pub open spec fn wrap_add(a: u64, b: u64) -> u64 {
    ((a + b) % 0x1_0000_0000_0000_0000) as u64
}

/// The time between a start and an end, as a count of nanoseconds: none when the end is not
/// later, and at most `i64::MAX` (the difference saturates).
pub open spec fn elapsed_nanos(start: i64, now: i64) -> u64 {
    if now <= start {
        0
    } else if now - start > i64::MAX {
        i64::MAX as u64
    } else {
        (now - start) as u64
    }
}

/// The probes after leaving `probe_id` at `now`: the innermost entered probe is taken off, and
/// when it is `probe_id` its time since entering counts for it, with one more invocation.
pub open spec fn after_exit(p: (Seq<(i32, i64)>, Seq<JdbcStats>), probe_id: i32, now: i64) -> (
    Seq<(i32, i64)>,
    Seq<JdbcStats>,
) {
    let (stack, stats) = p;
    if stack.len() == 0 {
        (stack, stats)
    } else {
        let (id, start) = stack.last();
        let rest = stack.drop_last();
        if id != probe_id {
            (rest, stats)
        } else {
            let d = elapsed_nanos(start, now);
            let s = stats[probe_id as int];
            (
                rest,
                stats.update(
                    probe_id as int,
                    JdbcStats {
                        self_duration_nano: wrap_add(s.self_duration_nano, d),
                        total_duration_nano: wrap_add(s.total_duration_nano, d),
                        invocations: wrap_add(s.invocations, 1),
                    },
                ),
            )
        }
    }
}

impl JdbcProbes {
    /// The probes are all there.
    pub open spec fn wf(&self) -> bool {
        self.stats@.len() == JDBC_PROBE_COUNT
    }

    /// No probe entered and nothing measured.
    pub fn new() -> (p: JdbcProbes)
        ensures
            p.wf(),
            p.stack@.len() == 0,
            forall|i: int|
                0 <= i < JDBC_PROBE_COUNT ==> p.stats@[i] == (JdbcStats {
                    self_duration_nano: 0,
                    total_duration_nano: 0,
                    invocations: 0,
                }),
    {
        let mut stats: Vec<JdbcStats> = Vec::new();
        let mut i: usize = 0;
        while i < JDBC_PROBE_COUNT
            invariant
                i <= JDBC_PROBE_COUNT,
                stats@.len() == i,
                forall|k: int|
                    0 <= k < i ==> stats@[k] == (JdbcStats {
                        self_duration_nano: 0,
                        total_duration_nano: 0,
                        invocations: 0,
                    }),
            decreases JDBC_PROBE_COUNT - i,
        {
            stats.push(JdbcStats { self_duration_nano: 0, total_duration_nano: 0, invocations: 0 });
            i = i + 1;
        }
        JdbcProbes { stack: Vec::new(), stats }
    }

    /// Enters a probe at `now` while recording; an invalid probe id is ignored.
    pub fn enter(&mut self, recording: bool, probe_id: i32, now: i64)
        requires
            old(self).wf(),
        ensures
            final(self).wf(),
            final(self).stats@ == old(self).stats@,
            final(self).stack@ == (if recording && 0 <= probe_id < JDBC_PROBE_COUNT {
                old(self).stack@.push((probe_id, now))
            } else {
                old(self).stack@
            }),
    {
        if !recording || !is_valid_jdbc_probe_id(probe_id) {
            return;
        }
        self.stack.push((probe_id, now));
    }

    /// Leaves a probe at `now` while recording; an invalid probe id is ignored.
    pub fn exit(&mut self, recording: bool, probe_id: i32, now: i64)
        requires
            old(self).wf(),
        ensures
            final(self).wf(),
            (final(self).stack@, final(self).stats@) == (if recording && 0 <= probe_id
                < JDBC_PROBE_COUNT {
                after_exit((old(self).stack@, old(self).stats@), probe_id, now)
            } else {
                (old(self).stack@, old(self).stats@)
            }),
    {
        if !recording || !is_valid_jdbc_probe_id(probe_id) {
            return;
        }
        let top = self.stack.pop();
        match top {
            None => {},
            Some((id, start)) => {
                if id != probe_id {
                    return;
                }
                let d: u64 = if now <= start {
                    0
                } else if now as i128 - start as i128 > i64::MAX as i128 {
                    i64::MAX as u64
                } else {
                    (now as i128 - start as i128) as u64
                };
                let i = probe_id as usize;
                let s = self.stats[i];
                self.stats.set(
                    i,
                    JdbcStats {
                        self_duration_nano: s.self_duration_nano.wrapping_add(d),
                        total_duration_nano: s.total_duration_nano.wrapping_add(d),
                        invocations: s.invocations.wrapping_add(1),
                    },
                );
            },
        }
    }

    /// Clears what every probe has measured.
    pub fn reset(&mut self)
        requires
            old(self).wf(),
        ensures
            final(self).wf(),
            final(self).stack@ == old(self).stack@,
            forall|i: int|
                0 <= i < JDBC_PROBE_COUNT ==> final(self).stats@[i] == (JdbcStats {
                    self_duration_nano: 0,
                    total_duration_nano: 0,
                    invocations: 0,
                }),
    {
        let mut i: usize = 0;
        while i < JDBC_PROBE_COUNT
            invariant
                i <= JDBC_PROBE_COUNT,
                self.stats@.len() == JDBC_PROBE_COUNT,
                self.stack@ == old(self).stack@,
                forall|k: int|
                    0 <= k < i ==> self.stats@[k] == (JdbcStats {
                        self_duration_nano: 0,
                        total_duration_nano: 0,
                        invocations: 0,
                    }),
            decreases JDBC_PROBE_COUNT - i,
        {
            self.stats.set(i, JdbcStats { self_duration_nano: 0, total_duration_nano: 0, invocations: 0 });
            i = i + 1;
        }
    }

    /// The average time of a probe's invocations: 0 for an invalid probe or none invoked.
    pub fn average_duration_nanos(&self, probe_id: i32) -> (r: i64)
        requires
            self.wf(),
        ensures
            r == (if 0 <= probe_id < JDBC_PROBE_COUNT && self.stats@[probe_id as int].invocations
                > 0 {
                (self.stats@[probe_id as int].self_duration_nano
                    / self.stats@[probe_id as int].invocations) as i64
            } else {
                0
            }),
    {
        if !is_valid_jdbc_probe_id(probe_id) {
            return 0;
        }
        let s = self.stats[probe_id as usize];
        if s.invocations == 0 {
            0
        } else {
            (s.self_duration_nano / s.invocations) as i64
        }
    }

    /// The measured probes as a JSON array, in probe order, skipping probes never invoked.
    pub fn hot_spots_json(&self) -> (r: String)
        requires
            self.wf(),
        ensures
            r@ == jdbc_json(self.stats@),
    {
        proof {
            reveal_strlit("[");
            reveal_strlit("]");
            reveal_strlit(",");
        }
        let mut out: Vec<char> = Vec::new();
        out.push('[');
        let mut first = true;
        let mut i: usize = 0;
        while i < JDBC_PROBE_COUNT
            invariant
                i <= JDBC_PROBE_COUNT,
                self.stats@.len() == JDBC_PROBE_COUNT,
                out@ == seq!['['] + jdbc_entries(self.stats@, i as int),
                first == (jdbc_entries(self.stats@, i as int).len() == 0),
            decreases JDBC_PROBE_COUNT - i,
        {
            let s = self.stats[i];
            if s.invocations > 0 {
                let ghost before = out@;
                if !first {
                    out.push(',');
                }
                let e = jdbc_entry_chars(i, s);
                push_all(&mut out, e.as_slice());
                first = false;
                proof {
                    lemma_jdbc_entry_nonempty(i as int, s);
                }
            }
            i = i + 1;
        }
        out.push(']');
        string_of(out.as_slice())
    }
}

/// The JSON object of one measured probe.
pub open spec fn jdbc_entry(id: int, s: JdbcStats) -> Seq<char> {
    "{\"id\":"@ + decimal(id as nat) + ",\"self_duration_nano\":"@ + decimal(
        s.self_duration_nano as nat,
    ) + ",\"total_duration_nano\":"@ + decimal(s.total_duration_nano as nat) + ",\"invocations\":"@
        + decimal(s.invocations as nat) + "}"@
}

/// The JSON objects of the probes before `n` that were invoked, separated by commas.
pub open spec fn jdbc_entries(stats: Seq<JdbcStats>, n: int) -> Seq<char>
    decreases n,
{
    if n <= 0 {
        seq![]
    } else if stats[n - 1].invocations > 0 {
        let before = jdbc_entries(stats, n - 1);
        if before.len() == 0 {
            jdbc_entry(n - 1, stats[n - 1])
        } else {
            before + seq![','] + jdbc_entry(n - 1, stats[n - 1])
        }
    } else {
        jdbc_entries(stats, n - 1)
    }
}

/// The JSON array of the measured probes.
pub open spec fn jdbc_json(stats: Seq<JdbcStats>) -> Seq<char> {
    seq!['['] + jdbc_entries(stats, JDBC_PROBE_COUNT as int) + seq![']']
}

proof fn lemma_jdbc_entry_nonempty(id: int, s: JdbcStats)
    ensures
        jdbc_entry(id, s).len() > 0,
{
}

fn jdbc_entry_chars(id: usize, s: JdbcStats) -> (out: Vec<char>)
    ensures
        out@ == jdbc_entry(id as int, s),
{
    let mut out = chars_of("{\"id\":");
    push_all(&mut out, decimal_chars(id as u64).as_slice());
    push_str(&mut out, ",\"self_duration_nano\":");
    push_all(&mut out, decimal_chars(s.self_duration_nano).as_slice());
    push_str(&mut out, ",\"total_duration_nano\":");
    push_all(&mut out, decimal_chars(s.total_duration_nano).as_slice());
    push_str(&mut out, ",\"invocations\":");
    push_all(&mut out, decimal_chars(s.invocations).as_slice());
    push_str(&mut out, "}");
    out
}

/// Entering and then leaving the same valid probe while recording counts one invocation of it,
/// adds the time between (at most `i64::MAX` nanoseconds, wrapping at 2^64) to both its self
/// and its total duration, and leaves the entered probes as they were.
pub proof fn lemma_enter_exit(
    stack: Seq<(i32, i64)>,
    stats: Seq<JdbcStats>,
    probe_id: i32,
    start: i64,
    now: i64,
)
    requires
        stats.len() == JDBC_PROBE_COUNT,
        0 <= probe_id < JDBC_PROBE_COUNT,
        stats[probe_id as int].invocations < u64::MAX,
        start <= now,
    ensures
        ({
            let (s2, t2) = after_exit((stack.push((probe_id, start)), stats), probe_id, now);
            &&& s2 == stack
            &&& t2[probe_id as int].invocations == stats[probe_id as int].invocations + 1
            &&& t2[probe_id as int].self_duration_nano == wrap_add(
                stats[probe_id as int].self_duration_nano,
                (if now - start > i64::MAX {
                    i64::MAX as int
                } else {
                    now - start
                }) as u64,
            )
            &&& t2[probe_id as int].total_duration_nano as int == (stats[probe_id as int].total_duration_nano
                + (if now - start > i64::MAX {
                i64::MAX as int
            } else {
                now - start
            })) % 0x1_0000_0000_0000_0000
            &&& forall|i: int| 0 <= i < JDBC_PROBE_COUNT && i != probe_id ==> t2[i] == stats[i]
        }),
{
    assert(stack.push((probe_id, start)).drop_last() =~= stack);
}

/// The names of a method that allocated.
#[derive(Clone, Debug)]
pub struct NativeMethodMeta {
    pub class_name: String,
    pub method_name: String,
    pub method_descriptor: String,
}

/// What the allocations along one call path (method ids, outermost... innermost first as the
/// stack lists them) have added up to.
#[derive(Clone, Debug)]
pub struct NativeAllocationStats {
    pub path: Vec<usize>,
    pub method: NativeMethodMeta,
    pub allocated_type: String,
    pub allocated_size: u64,
    pub instance_count: u64,
}

/// The mathematical content of a method's names.
pub struct MetaModel {
    pub class_name: Seq<char>,
    pub method_name: Seq<char>,
    pub method_descriptor: Seq<char>,
}

impl View for NativeMethodMeta {
    type V = MetaModel;

    open spec fn view(&self) -> MetaModel {
        MetaModel {
            class_name: self.class_name@,
            method_name: self.method_name@,
            method_descriptor: self.method_descriptor@,
        }
    }
}

/// The mathematical content of an allocation path's counts.
pub struct AllocStatModel {
    pub path: Seq<usize>,
    pub method: MetaModel,
    pub allocated_type: Seq<char>,
    pub allocated_size: u64,
    pub instance_count: u64,
}

impl View for NativeAllocationStats {
    type V = AllocStatModel;

    open spec fn view(&self) -> AllocStatModel {
        AllocStatModel {
            path: self.path@,
            method: self.method@,
            allocated_type: self.allocated_type@,
            allocated_size: self.allocated_size,
            instance_count: self.instance_count,
        }
    }
}

/// The views of a sequence of allocation path counts.
pub open spec fn stats_view(v: Seq<NativeAllocationStats>) -> Seq<AllocStatModel> {
    v.map_values(|a: NativeAllocationStats| a@)
}

/// Frames of an allocation's stack looked at, at most.
pub const MAX_ALLOCATION_FRAMES: usize = 12;

/// The frames kept of an allocation's stack, from frame `i` on (below `limit`), after `acc`:
/// each frame whose method is known, by method id and names; none at all when the first known
/// method is in a class whose allocations are left out.
pub open spec fn kept_frames(
    frames: Seq<(usize, Option<NativeMethodMeta>)>,
    i: int,
    limit: int,
    acc: Seq<(usize, MetaModel)>,
) -> Option<Seq<(usize, MetaModel)>>
    decreases limit - i,
{
    if i < 0 || i >= limit || i >= frames.len() {
        Some(acc)
    } else {
        match frames[i].1 {
            None => kept_frames(frames, i + 1, limit, acc),
            Some(m) => if acc.len() == 0 && skipped_top_class(m.class_name@) {
                None
            } else {
                kept_frames(frames, i + 1, limit, acc.push((frames[i].0, m@)))
            },
        }
    }
}

/// The position of the entry for `path`, the last one when several are.
pub open spec fn stat_index(stats: Seq<AllocStatModel>, path: Seq<usize>, n: int) -> Option<int>
    decreases n,
{
    if n <= 0 {
        None
    } else if stats[n - 1].path == path {
        Some(n - 1)
    } else {
        stat_index(stats, path, n - 1)
    }
}

/// `a + b`, at most `u64::MAX`.
pub open spec fn sat_add(a: u64, b: u64) -> u64 {
    if a + b > u64::MAX {
        u64::MAX
    } else {
        (a + b) as u64
    }
}

/// The counts after one allocation of `size` bytes along `path`: its entry (made for it with
/// `meta` and the allocated type when missing) gains the bytes and one instance.
pub open spec fn counted_at(
    stats: Seq<AllocStatModel>,
    path: Seq<usize>,
    meta: MetaModel,
    allocated_type: Seq<char>,
    size: u64,
) -> Seq<AllocStatModel> {
    match stat_index(stats, path, stats.len() as int) {
        Some(k) => stats.update(
            k,
            AllocStatModel {
                allocated_size: sat_add(stats[k].allocated_size, size),
                instance_count: sat_add(stats[k].instance_count, 1),
                ..stats[k]
            },
        ),
        None => stats.push(
            AllocStatModel {
                path,
                method: meta,
                allocated_type,
                allocated_size: size,
                instance_count: 1,
            },
        ),
    }
}

/// The counts after an allocation counted along every prefix `kept[..=d]` for `d` from `d0` on.
pub open spec fn counted_along(
    stats: Seq<AllocStatModel>,
    kept: Seq<(usize, MetaModel)>,
    allocated_type: Seq<char>,
    size: u64,
    d: int,
) -> Seq<AllocStatModel>
    decreases kept.len() - d,
{
    if d < 0 || d >= kept.len() {
        stats
    } else {
        counted_along(
            counted_at(
                stats,
                kept.take(d + 1).map_values(|p: (usize, MetaModel)| p.0),
                kept[d].1,
                allocated_type,
                size,
            ),
            kept,
            allocated_type,
            size,
            d + 1,
        )
    }
}

/// The counts after an allocation of `size` bytes with the given stack: unchanged for no
/// bytes, for a stack without a known method, or for one that starts in a left-out class;
/// else every prefix of the kept frames counts it.
pub open spec fn after_allocation(
    stats: Seq<AllocStatModel>,
    frames: Seq<(usize, Option<NativeMethodMeta>)>,
    allocated_type: Seq<char>,
    size: i64,
) -> Seq<AllocStatModel> {
    if size <= 0 {
        stats
    } else {
        match kept_frames(frames, 0, MAX_ALLOCATION_FRAMES as int, seq![]) {
            None => stats,
            Some(kept) => counted_along(stats, kept, allocated_type, size as u64, 0),
        }
    }
}

fn clone_meta(m: &NativeMethodMeta) -> (c: NativeMethodMeta)
    ensures
        c@ == m@,
{
    NativeMethodMeta {
        class_name: m.class_name.clone(),
        method_name: m.method_name.clone(),
        method_descriptor: m.method_descriptor.clone(),
    }
}

fn same_path(a: &[usize], b: &[usize]) -> (r: bool)
    ensures
        r == (a@ == b@),
{
    if a.len() != b.len() {
        return false;
    }
    let mut i: usize = 0;
    while i < a.len()
        invariant
            a@.len() == b@.len(),
            i <= a@.len(),
            forall|k: int| 0 <= k < i ==> a@[k] == b@[k],
        decreases a@.len() - i,
    {
        if a[i] != b[i] {
            return false;
        }
        i = i + 1;
    }
    assert(a@ =~= b@);
    true
}

fn count_at(
    stats: &mut Vec<NativeAllocationStats>,
    path: Vec<usize>,
    meta: &NativeMethodMeta,
    allocated_type: &str,
    size: u64,
)
    ensures
        stats_view(final(stats)@) == counted_at(
            stats_view(old(stats)@),
            path@,
            meta@,
            allocated_type@,
            size,
        ),
{
    let ghost sv = stats_view(stats@);
    let mut n = stats.len();
    while n > 0
        invariant
            n <= stats@.len(),
            sv == stats_view(stats@),
            stats@ == old(stats)@,
            stat_index(sv, path@, sv.len() as int) == stat_index(sv, path@, n as int),
        decreases n,
    {
        if same_path(stats[n - 1].path.as_slice(), path.as_slice()) {
            let k = n - 1;
            assert(sv[k as int].path == path@);
            assert(stat_index(sv, path@, n as int) == Some(k as int));
            let old_stat = &stats[k];
            let updated = NativeAllocationStats {
                path: old_stat.path.clone(),
                method: clone_meta(&old_stat.method),
                allocated_type: old_stat.allocated_type.clone(),
                allocated_size: old_stat.allocated_size.saturating_add(size),
                instance_count: old_stat.instance_count.saturating_add(1),
            };
            assert(updated.path@ == old_stat.path@);
            stats.set(k, updated);
            proof {
                assert(stats_view(stats@) =~= sv.update(
                    k as int,
                    AllocStatModel {
                        allocated_size: sat_add(sv[k as int].allocated_size, size),
                        instance_count: sat_add(sv[k as int].instance_count, 1),
                        ..sv[k as int]
                    },
                ));
            }
            return;
        }
        n = n - 1;
    }
    let entry = NativeAllocationStats {
        path,
        method: clone_meta(meta),
        allocated_type: string_of(chars_of(allocated_type).as_slice()),
        allocated_size: size,
        instance_count: 1,
    };
    let ghost e = entry@;
    stats.push(entry);
    assert(stats_view(stats@) =~= sv.push(e));
}

/// Counts one allocation of `size` bytes whose stack holds, innermost first, each frame's method
/// id and, where known, its names.
pub fn record_allocation(
    stats: &mut Vec<NativeAllocationStats>,
    frames: &[(usize, Option<NativeMethodMeta>)],
    allocated_type: &str,
    size: i64,
)
    ensures
        stats_view(final(stats)@) == after_allocation(
            stats_view(old(stats)@),
            frames@,
            allocated_type@,
            size,
        ),
{
    if size <= 0 {
        return;
    }
    let mut path: Vec<usize> = Vec::new();
    let mut metas: Vec<NativeMethodMeta> = Vec::new();
    let ghost mut acc: Seq<(usize, MetaModel)> = seq![];
    let mut i: usize = 0;
    while i < frames.len() && i < MAX_ALLOCATION_FRAMES
        invariant
            i <= frames@.len(),
            i <= MAX_ALLOCATION_FRAMES,
            path@.len() == metas@.len() == acc.len(),
            forall|q: int| 0 <= q < acc.len() ==> #[trigger] acc[q] == (path@[q], metas@[q]@),
            kept_frames(frames@, 0, MAX_ALLOCATION_FRAMES as int, seq![]) == kept_frames(
                frames@,
                i as int,
                MAX_ALLOCATION_FRAMES as int,
                acc,
            ),
        decreases frames@.len() - i,
    {
        match &frames[i].1 {
            None => {},
            Some(m) => {
                if metas.len() == 0 && should_skip_allocation_top_frame(m.class_name.as_str()) {
                    return;
                }
                path.push(frames[i].0);
                metas.push(clone_meta(m));
                proof {
                    acc = acc.push((frames@[i as int].0, m@));
                }
            },
        }
        i = i + 1;
    }
    let ghost kept = acc;
    assert(kept_frames(frames@, 0, MAX_ALLOCATION_FRAMES as int, seq![]) == Some(kept));
    if path.len() == 0 {
        return;
    }
    let sz = size as u64;
    let mut d: usize = 0;
    while d < path.len()
        invariant
            d <= path@.len(),
            path@.len() == metas@.len() == kept.len(),
            forall|q: int| 0 <= q < kept.len() ==> #[trigger] kept[q] == (path@[q], metas@[q]@),
            sz == size as u64,
            counted_along(stats_view(old(stats)@), kept, allocated_type@, sz, 0) == counted_along(
                stats_view(stats@),
                kept,
                allocated_type@,
                sz,
                d as int,
            ),
        decreases path@.len() - d,
    {
        let sub = sub_path(path.as_slice(), d + 1);
        proof {
            assert(sub@ =~= kept.take(d + 1).map_values(|p: (usize, MetaModel)| p.0));
        }
        count_at(stats, sub, &metas[d], allocated_type, sz);
        d = d + 1;
    }
}

fn sub_path(path: &[usize], n: usize) -> (out: Vec<usize>)
    requires
        n <= path@.len(),
    ensures
        out@ == path@.take(n as int),
{
    let mut out: Vec<usize> = Vec::new();
    let mut i: usize = 0;
    while i < n
        invariant
            i <= n <= path@.len(),
            out@ == path@.take(i as int),
        decreases n - i,
    {
        out.push(path[i]);
        i = i + 1;
        assert(out@ =~= path@.take(i as int));
    }
    out
}

/// The order of the exported rows: shorter paths first, and among paths of one length the
/// larger size first (rows that tie in both in their order).
pub open spec fn export_order(stats: Seq<AllocStatModel>) -> Seq<int> {
    let by_size = desc_order_of(
        stats.map_values(|a: AllocStatModel| a.allocated_size),
        |i: int| true,
        stats.len() as int,
    );
    let by_length = desc_order_of(
        by_size.map_values(|i: int| (u64::MAX - stats[i].path.len()) as u64),
        |j: int| true,
        stats.len() as int,
    );
    by_length.map_values(|j: int| by_size[j])
}

/// The last line before `j` whose row has `path`.
pub open spec fn line_with_path(stats: Seq<AllocStatModel>, order: Seq<int>, path: Seq<usize>, j: int) -> Option<int>
    decreases j,
{
    if j <= 0 {
        None
    } else if stats[order[j - 1]].path == path {
        Some(j - 1)
    } else {
        line_with_path(stats, order, path, j - 1)
    }
}

/// The line of the parent of line `j`'s row: the line of the path one call shorter, or -1.
pub open spec fn parent_line(stats: Seq<AllocStatModel>, order: Seq<int>, j: int) -> int {
    let path = stats[order[j]].path;
    if path.len() > 1 {
        match line_with_path(stats, order, path.drop_last(), j) {
            Some(k) => k,
            None => -1,
        }
    } else {
        -1
    }
}

/// A signed number in decimal.
pub open spec fn signed_decimal(v: int) -> Seq<char> {
    if v < 0 {
        seq!['-'] + decimal((-v) as nat)
    } else {
        decimal(v as nat)
    }
}

/// Line `j` of the export: its id, its parent's id, the method's names, the allocated type,
/// the bytes and the instances, separated by tabs.
pub open spec fn export_line(stats: Seq<AllocStatModel>, order: Seq<int>, j: int) -> Seq<char> {
    let a = stats[order[j]];
    signed_decimal(j) + seq!['\t'] + signed_decimal(parent_line(stats, order, j)) + seq!['\t']
        + tsv_text(a.method.class_name) + seq!['\t'] + tsv_text(a.method.method_name) + seq!['\t']
        + tsv_text(a.method.method_descriptor) + seq!['\t'] + tsv_text(a.allocated_type) + seq![
        '\t',
    ] + decimal(a.allocated_size as nat) + seq!['\t'] + decimal(a.instance_count as nat)
}

/// The export of the allocation counts: one line per path, in export order.
pub open spec fn export_text(stats: Seq<AllocStatModel>) -> Seq<char> {
    let order = export_order(stats);
    join(Seq::new(order.len(), |j: int| export_line(stats, order, j)), seq!['\n'])
}

fn signed_decimal_chars(v: i64) -> (out: Vec<char>)
    ensures
        out@ == signed_decimal(v as int),
{
    if v < 0 {
        let mut out: Vec<char> = Vec::new();
        out.push('-');
        let m: u64 = (-(v as i128)) as u64;
        push_all(&mut out, decimal_chars(m).as_slice());
        out
    } else {
        decimal_chars(v as u64)
    }
}

fn push_tab(out: &mut Vec<char>)
    ensures
        final(out)@ == old(out)@ + seq!['\t'],
{
    out.push('\t');
}

/// The allocation counts as tab-separated lines: shorter paths first, larger sizes first
/// among paths of one length; each line numbered and pointing at its parent path's line.
pub fn allocation_export_tsv(stats: &[NativeAllocationStats]) -> (r: String)
    requires
        stats@.len() <= i32::MAX,
    ensures
        r@ == export_text(stats_view(stats@)),
{
    let ghost sv = stats_view(stats@);
    let n = stats.len();
    let mut sizes: Vec<u64> = Vec::new();
    let mut all: Vec<bool> = Vec::new();
    let mut i: usize = 0;
    while i < n
        invariant
            i <= n == stats@.len() == sv.len(),
            sv == stats_view(stats@),
            sizes@ == sv.map_values(|a: AllocStatModel| a.allocated_size).take(i as int),
            all@.len() == i,
            forall|q: int| 0 <= q < i ==> all@[q],
        decreases n - i,
    {
        sizes.push(stats[i].allocated_size);
        all.push(true);
        i = i + 1;
        assert(sizes@ =~= sv.map_values(|a: AllocStatModel| a.allocated_size).take(i as int));
    }
    let ghost ks = sv.map_values(|a: AllocStatModel| a.allocated_size);
    assert(sizes@ =~= ks);
    let by_size = stable_order_desc(sizes.as_slice(), all.as_slice());
    let ghost bs = by_size@.map_values(|x: usize| x as int);
    proof {
        lemma_desc_order_congruent(ks, |q: int| all@[q], |q: int| true, n as int);
        crate::order::lemma_desc_order_len(ks, |q: int| true, n as int);
        crate::order::lemma_desc_order_all_len(ks, n as int);
    }
    let mut lens: Vec<u64> = Vec::new();
    let mut j: usize = 0;
    while j < by_size.len()
        invariant
            j <= by_size@.len(),
            bs == by_size@.map_values(|x: usize| x as int),
            forall|q: int| 0 <= q < by_size@.len() ==> by_size@[q] < n,
            n == stats@.len(),
            sv == stats_view(stats@),
            lens@ == bs.map_values(|q: int| (u64::MAX - sv[q].path.len()) as u64).take(j as int),
        decreases by_size@.len() - j,
    {
        let k = by_size[j];
        let l = stats[k].path.len() as u64;
        lens.push(u64::MAX - l);
        j = j + 1;
        assert(lens@ =~= bs.map_values(|q: int| (u64::MAX - sv[q].path.len()) as u64).take(
            j as int,
        ));
    }
    let ghost ls = bs.map_values(|q: int| (u64::MAX - sv[q].path.len()) as u64);
    assert(lens@ =~= ls);
    let mut all2: Vec<bool> = Vec::new();
    let mut q: usize = 0;
    while q < lens.len()
        invariant
            q <= lens@.len(),
            all2@.len() == q,
            forall|z: int| 0 <= z < q ==> all2@[z],
        decreases lens@.len() - q,
    {
        all2.push(true);
        q = q + 1;
    }
    let by_length = stable_order_desc(lens.as_slice(), all2.as_slice());
    proof {
        lemma_desc_order_congruent(ls, |z: int| all2@[z], |z: int| true, ls.len() as int);
        crate::order::lemma_desc_order_all_len(ls, ls.len() as int);
    }
    let ghost bl = by_length@.map_values(|x: usize| x as int);
    assert(bs.len() == n);
    let mut order: Vec<usize> = Vec::new();
    let mut t: usize = 0;
    while t < by_length.len()
        invariant
            t <= by_length@.len(),
            bl == by_length@.map_values(|x: usize| x as int),
            forall|z: int| 0 <= z < by_length@.len() ==> by_length@[z] < by_size@.len(),
            bs == by_size@.map_values(|x: usize| x as int),
            forall|z: int| 0 <= z < by_size@.len() ==> by_size@[z] < n,
            order@.map_values(|x: usize| x as int) == bl.map_values(|z: int| bs[z]).take(t as int),
            forall|z: int| 0 <= z < order@.len() ==> order@[z] < n,
        decreases by_length@.len() - t,
    {
        let z = by_length[t];
        let v = by_size[z];
        let ghost before = order@;
        order.push(v);
        assert(bl[t as int] == z as int);
        assert(bs[z as int] == v as int);
        assert(order@.map_values(|x: usize| x as int) =~= before.map_values(|x: usize| x as int).push(
            v as int,
        ));
        t = t + 1;
        assert(order@.map_values(|x: usize| x as int) =~= bl.map_values(|z: int| bs[z]).take(
            t as int,
        ));
    }
    let ghost ov = order@.map_values(|x: usize| x as int);
    proof {
        assert(bl.map_values(|z: int| bs[z]).take(bl.len() as int) =~= bl.map_values(|z: int| bs[z]));
        assert(ls.len() == n);
        assert(ov == export_order(sv));
    }
    let m = order.len();
    let mut lines: Vec<Vec<char>> = Vec::new();
    let mut j: usize = 0;
    while j < m
        invariant
            j <= m == order@.len(),
            m <= i32::MAX,
            ov == order@.map_values(|x: usize| x as int),
            ov == export_order(sv),
            sv == stats_view(stats@),
            forall|z: int| 0 <= z < order@.len() ==> order@[z] < stats@.len(),
            lines@.map_values(|v: Vec<char>| v@) == Seq::new(
                ov.len(),
                |z: int| export_line(sv, ov, z),
            ).take(j as int),
        decreases m - j,
    {
        let line = export_line_chars(stats, order.as_slice(), j);
        let ghost before = lines@;
        lines.push(line);
        assert(lines@.map_values(|v: Vec<char>| v@) =~= before.map_values(|v: Vec<char>| v@).push(
            line@,
        ));
        j = j + 1;
        assert(lines@.map_values(|v: Vec<char>| v@) =~= Seq::new(
            ov.len(),
            |z: int| export_line(sv, ov, z),
        ).take(j as int));
    }
    let out = join_from(&lines, 0, "\n");
    proof {
        reveal_strlit("\n");
        assert("\n"@ =~= seq!['\n']);
        assert(lines@.skip(0) =~= lines@);
        assert(Seq::new(ov.len(), |z: int| export_line(sv, ov, z)).take(m as int) =~= Seq::new(
            ov.len(),
            |z: int| export_line(sv, ov, z),
        ));
    }
    string_of(out.as_slice())
}

/// The line before `j` whose row has `path`, or -1.
fn find_line_with_path(
    stats: &[NativeAllocationStats],
    order: &[usize],
    path: &[usize],
    j: usize,
) -> (r: i64)
    requires
        j <= order@.len() <= i32::MAX,
        forall|z: int| 0 <= z < order@.len() ==> order@[z] < stats@.len(),
    ensures
        r == match line_with_path(
            stats_view(stats@),
            order@.map_values(|x: usize| x as int),
            path@,
            j as int,
        ) {
            Some(k) => k,
            None => -1,
        },
{
    let ghost sv = stats_view(stats@);
    let ghost ov = order@.map_values(|x: usize| x as int);
    let mut k = j;
    while k > 0
        invariant
            k <= j <= order@.len() <= i32::MAX,
            sv == stats_view(stats@),
            ov == order@.map_values(|x: usize| x as int),
            forall|z: int| 0 <= z < order@.len() ==> order@[z] < stats@.len(),
            line_with_path(sv, ov, path@, j as int) == line_with_path(sv, ov, path@, k as int),
        decreases k,
    {
        assert(sv[ov[k - 1]].path == stats@[order@[k - 1] as int].path@);
        if same_path(stats[order[k - 1]].path.as_slice(), path) {
            return (k - 1) as i64;
        }
        k = k - 1;
    }
    -1
}

/// Line `j` of the export.
fn export_line_chars(stats: &[NativeAllocationStats], order: &[usize], j: usize) -> (out: Vec<char>)
    requires
        j < order@.len() <= i32::MAX,
        forall|z: int| 0 <= z < order@.len() ==> order@[z] < stats@.len(),
    ensures
        out@ == export_line(stats_view(stats@), order@.map_values(|x: usize| x as int), j as int),
{
    let ghost sv = stats_view(stats@);
    let ghost ov = order@.map_values(|x: usize| x as int);
    let a = &stats[order[j]];
    assert(sv[ov[j as int]] == a@);
    let parent: i64 = if a.path.len() > 1 {
        let parent_path = sub_path(a.path.as_slice(), a.path.len() - 1);
        assert(parent_path@ =~= a.path@.drop_last());
        find_line_with_path(stats, order, parent_path.as_slice(), j)
    } else {
        -1
    };
    proof {
        lemma_line_with_path_range(sv, ov, a.path@.drop_last(), j as int);
    }
    assert(parent == parent_line(sv, ov, j as int));
    let mut out = signed_decimal_chars(j as i64);
    push_tab(&mut out);
    push_all(&mut out, signed_decimal_chars(parent).as_slice());
    push_tab(&mut out);
    push_all(&mut out, chars_of(tsv_clean(a.method.class_name.as_str()).as_str()).as_slice());
    push_tab(&mut out);
    push_all(&mut out, chars_of(tsv_clean(a.method.method_name.as_str()).as_str()).as_slice());
    push_tab(&mut out);
    push_all(&mut out, chars_of(tsv_clean(a.method.method_descriptor.as_str()).as_str()).as_slice());
    push_tab(&mut out);
    push_all(&mut out, chars_of(tsv_clean(a.allocated_type.as_str()).as_str()).as_slice());
    push_tab(&mut out);
    push_all(&mut out, decimal_chars(a.allocated_size).as_slice());
    push_tab(&mut out);
    push_all(&mut out, decimal_chars(a.instance_count).as_slice());
    out
}

proof fn lemma_line_with_path_range(stats: Seq<AllocStatModel>, order: Seq<int>, path: Seq<usize>, j: int)
    ensures
        match line_with_path(stats, order, path, j) {
            Some(k) => 0 <= k < j,
            None => true,
        },
    decreases j,
{
    if j > 0 {
        lemma_line_with_path_range(stats, order, path, j - 1);
    }
}

/// How often a method was sampled, and how often as the innermost frame.
#[derive(Clone, Debug)]
pub struct HotSpotEntry {
    pub class_name: String,
    pub method_name: String,
    pub method_descriptor: String,
    pub self_samples: u64,
    pub total_samples: u64,
}

/// The sample counts of the agent's own sampler: all samples, and per method.
#[derive(Clone, Debug)]
pub struct SampleCounts {
    pub total_samples: u64,
    pub entries: Vec<HotSpotEntry>,
}

/// The key of an entry's method.
pub open spec fn entry_key(e: HotSpotEntry) -> Seq<char> {
    crate::call_tree::frame_key(e.class_name@, e.method_name@, e.method_descriptor@)
}

/// The position of the entry with `key`.
pub open spec fn entry_index(entries: Seq<HotSpotEntry>, key: Seq<char>, n: int) -> Option<int>
    decreases n,
{
    if n <= 0 {
        None
    } else if entry_key(entries[n - 1]) == key {
        Some(n - 1)
    } else {
        entry_index(entries, key, n - 1)
    }
}

impl SampleCounts {
    /// No method is counted twice, and no method more often than all samples.
    pub open spec fn wf(&self) -> bool {
        &&& forall|a: int, b: int|
            0 <= a < b < self.entries@.len() ==> entry_key(self.entries@[a]) != entry_key(
                self.entries@[b],
            )
        &&& forall|a: int|
            0 <= a < self.entries@.len() ==> (#[trigger] self.entries@[a]).total_samples
                <= self.total_samples && self.entries@[a].self_samples
                <= self.entries@[a].total_samples
    }

    /// Nothing sampled.
    pub fn new() -> (c: SampleCounts)
        ensures
            c.wf(),
            c.total_samples == 0,
            c.entries@.len() == 0,
    {
        SampleCounts { total_samples: 0, entries: Vec::new() }
    }

    /// Counts a sample of a method while recording: one more sample in all and for the method
    /// (a new entry for a method not seen yet), and one more innermost sample when it is the
    /// innermost frame.
    pub fn record_sample(
        &mut self,
        recording: bool,
        class_name: &str,
        method_name: &str,
        method_descriptor: &str,
        is_leaf: bool,
    )
        requires
            old(self).wf(),
            old(self).total_samples < u64::MAX,
        ensures
            final(self).wf(),
            !recording ==> *final(self) == *old(self),
            recording ==> final(self).total_samples == old(self).total_samples + 1,
            recording ==> {
                let key = crate::call_tree::frame_key(
                    class_name@,
                    method_name@,
                    method_descriptor@,
                );
                let n = old(self).entries@.len() as int;
                match entry_index(old(self).entries@, key, n) {
                    Some(k) => {
                        &&& final(self).entries@.len() == n
                        &&& final(self).entries@[k].total_samples == old(self).entries@[k].total_samples + 1
                        &&& final(self).entries@[k].self_samples == old(self).entries@[k].self_samples
                            + if is_leaf {
                            1int
                        } else {
                            0int
                        }
                        &&& entry_key(final(self).entries@[k]) == key
                        &&& forall|q: int| 0 <= q < n && q != k ==> final(self).entries@[q] == old(
                            self,
                        ).entries@[q]
                    },
                    None => {
                        &&& final(self).entries@.len() == n + 1
                        &&& final(self).entries@.take(n) == old(self).entries@
                        &&& entry_key(final(self).entries@[n]) == key
                        &&& final(self).entries@[n].total_samples == 1
                        &&& final(self).entries@[n].self_samples == if is_leaf {
                            1u64
                        } else {
                            0u64
                        }
                    },
                }
            },
    {
        if !recording {
            return;
        }
        let ghost old_entries = self.entries@;
        self.total_samples = self.total_samples + 1;
        let key = crate::call_tree::frame_key_exec(class_name, method_name, method_descriptor);
        let mut n = self.entries.len();
        while n > 0
            invariant
                n <= self.entries@.len(),
                self.entries@ == old_entries,
                old_entries == old(self).entries@,
                recording,
                key@ == crate::call_tree::frame_key(class_name@, method_name@, method_descriptor@),
                old(self).wf(),
                old(self).total_samples < u64::MAX,
                self.total_samples == old(self).total_samples + 1,
                entry_index(old_entries, key@, old_entries.len() as int) == entry_index(
                    old_entries,
                    key@,
                    n as int,
                ),
            decreases n,
        {
            let e = &self.entries[n - 1];
            let ek = crate::call_tree::frame_key_exec(
                e.class_name.as_str(),
                e.method_name.as_str(),
                e.method_descriptor.as_str(),
            );
            if crate::jvm::same_chars(ek.as_slice(), key.as_slice()) {
                let k = n - 1;
                let updated = HotSpotEntry {
                    class_name: e.class_name.clone(),
                    method_name: e.method_name.clone(),
                    method_descriptor: e.method_descriptor.clone(),
                    self_samples: if is_leaf {
                        e.self_samples + 1
                    } else {
                        e.self_samples
                    },
                    total_samples: e.total_samples + 1,
                };
                assert(entry_index(old_entries, key@, n as int) == Some(k as int));
                self.entries.set(k, updated);
                proof {
                    assert forall|a: int|
                        0 <= a < self.entries@.len() implies (#[trigger] self.entries@[a]).total_samples
                        <= self.total_samples && self.entries@[a].self_samples
                        <= self.entries@[a].total_samples by {
                        if a != k {
                            assert(self.entries@[a] == old_entries[a]);
                        }
                    }
                    assert forall|a: int, b: int|
                        0 <= a < b < self.entries@.len() implies entry_key(self.entries@[a])
                        != entry_key(self.entries@[b]) by {
                        assert(entry_key(self.entries@[a]) == entry_key(old_entries[a]));
                        assert(entry_key(self.entries@[b]) == entry_key(old_entries[b]));
                    }
                }
                return;
            }
            n = n - 1;
        }
        proof {
            lemma_entry_index_none(old_entries, key@, old_entries.len() as int);
        }
        let entry = HotSpotEntry {
            class_name: string_of(chars_of(class_name).as_slice()),
            method_name: string_of(chars_of(method_name).as_slice()),
            method_descriptor: string_of(chars_of(method_descriptor).as_slice()),
            self_samples: if is_leaf {
                1
            } else {
                0
            },
            total_samples: 1,
        };
        self.entries.push(entry);
        proof {
            assert(self.entries@.take(old_entries.len() as int) =~= old_entries);
            assert forall|a: int, b: int|
                0 <= a < b < self.entries@.len() implies entry_key(self.entries@[a]) != entry_key(
                self.entries@[b],
            ) by {
                if b == old_entries.len() {
                    assert(self.entries@[a] == old_entries[a]);
                } else {
                    assert(self.entries@[a] == old_entries[a]);
                    assert(self.entries@[b] == old_entries[b]);
                }
            }
            assert forall|a: int|
                0 <= a < self.entries@.len() implies (#[trigger] self.entries@[a]).total_samples
                <= self.total_samples && self.entries@[a].self_samples
                <= self.entries@[a].total_samples by {
                if a < old_entries.len() {
                    assert(self.entries@[a] == old_entries[a]);
                }
            }
        }
    }
}

proof fn lemma_entry_index_none(entries: Seq<HotSpotEntry>, key: Seq<char>, n: int)
    requires
        entry_index(entries, key, n) is None,
        n <= entries.len(),
    ensures
        forall|q: int| 0 <= q < n ==> entry_key(entries[q]) != key,
    decreases n,
{
    if n > 0 {
        lemma_entry_index_none(entries, key, n - 1);
    }
}

/// The `limit` entries sampled most often as the innermost frame, the most first (equal
/// counts in their order).
pub open spec fn top_entries(entries: Seq<HotSpotEntry>, limit: nat) -> Seq<HotSpotEntry> {
    let order = desc_order_of(
        entries.map_values(|e: HotSpotEntry| e.self_samples),
        |i: int| true,
        entries.len() as int,
    );
    let kept = if order.len() > limit {
        order.take(limit as int)
    } else {
        order
    };
    kept.map_values(|i: int| entries[i])
}

/// The positions of the `limit` entries sampled most often as the innermost frame, the most
/// first.
pub fn top_hot_spot_entries(entries: &[HotSpotEntry], limit: usize) -> (out: Vec<usize>)
    ensures
        out@.map_values(|i: usize| entries@[i as int]) == top_entries(entries@, limit as nat),
        forall|q: int| 0 <= q < out@.len() ==> out@[q] < entries@.len(),
{
    let mut keys: Vec<u64> = Vec::new();
    let mut picks: Vec<bool> = Vec::new();
    let mut i: usize = 0;
    while i < entries.len()
        invariant
            i <= entries@.len(),
            keys@ == entries@.map_values(|e: HotSpotEntry| e.self_samples).take(i as int),
            picks@.len() == i,
            forall|q: int| 0 <= q < i ==> picks@[q],
        decreases entries@.len() - i,
    {
        keys.push(entries[i].self_samples);
        picks.push(true);
        i = i + 1;
        assert(keys@ =~= entries@.map_values(|e: HotSpotEntry| e.self_samples).take(i as int));
    }
    let ghost ks = entries@.map_values(|e: HotSpotEntry| e.self_samples);
    assert(keys@ =~= ks);
    let order = stable_order_desc(keys.as_slice(), picks.as_slice());
    proof {
        lemma_desc_order_congruent(ks, |q: int| picks@[q], |q: int| true, entries@.len() as int);
    }
    let ghost ov = order@.map_values(|x: usize| x as int);
    let mut out: Vec<usize> = Vec::new();
    let mut j: usize = 0;
    while j < order.len() && j < limit
        invariant
            j <= order@.len(),
            j <= limit,
            ov == order@.map_values(|x: usize| x as int),
            forall|q: int| 0 <= q < order@.len() ==> order@[q] < entries@.len(),
            out@ == order@.take(j as int),
        decreases order@.len() - j,
    {
        out.push(order[j]);
        j = j + 1;
        assert(out@ =~= order@.take(j as int));
    }
    proof {
        let kept = if ov.len() > limit {
            ov.take(limit as int)
        } else {
            ov
        };
        assert(out@.map_values(|i: usize| entries@[i as int]) =~= kept.map_values(
            |i: int| entries@[i],
        ));
    }
    out
}


/// Each exported line points at an earlier line as its parent, or at none, so the lines form
/// a forest in which parents come first.
pub proof fn lemma_export_parent_before(stats: Seq<AllocStatModel>, j: int)
    requires
        0 <= j < export_order(stats).len(),
    ensures
        -1 <= parent_line(stats, export_order(stats), j) < j,
{
    let order = export_order(stats);
    lemma_line_with_path_range(stats, order, stats[order[j]].path.drop_last(), j);
}

} // verus!
