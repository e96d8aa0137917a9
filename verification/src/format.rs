use vstd::prelude::*;

use crate::jvm::after_last;
use crate::text::{
    chars_of, decimal, decimal_chars, lemma_rfind, push_all, push_str, rfind, rfind_exec,
    string_of, sub_chars,
};

verus! {

/// Digits grouped in threes from the right, separated by commas.
pub open spec fn group_thousands(d: Seq<char>) -> Seq<char>
    decreases d.len(),
{
    if d.len() <= 3 {
        d
    } else {
        group_thousands(d.take(d.len() - 3)) + ","@ + d.skip(d.len() - 3)
    }
}

/// A count with thousands separators, such as `1,234,567`.
pub fn format_count(value: u64) -> (r: String)
    ensures
        r@ == group_thousands(decimal(value as nat)),
{
    proof {
        reveal_strlit(",");
    }
    let d = decimal_chars(value);
    let mut j = d.len();
    let mut acc: Vec<char> = Vec::new();
    assert(d@.take(j as int) =~= d@);
    while j > 3
        invariant
            j <= d@.len(),
            group_thousands(d@) == group_thousands(d@.take(j as int)) + acc@,
        decreases j,
    {
        let mut piece: Vec<char> = Vec::new();
        piece.push(',');
        push_all(&mut piece, sub_chars(d.as_slice(), j - 3, j).as_slice());
        push_all(&mut piece, acc.as_slice());
        proof {
            reveal_strlit(",");
            assert(","@ =~= seq![',']);
            let t = d@.take(j as int);
            assert(t.take(t.len() - 3) =~= d@.take(j - 3));
            assert(t.skip(t.len() - 3) =~= d@.subrange(j - 3, j as int));
            assert(piece@ =~= ","@ + d@.subrange(j - 3, j as int) + acc@);
            assert(group_thousands(t) == group_thousands(d@.take(j - 3)) + ","@ + d@.subrange(
                j - 3,
                j as int,
            ));
        }
        acc = piece;
        j = j - 3;
    }
    let mut out = sub_chars(d.as_slice(), 0, j);
    push_all(&mut out, acc.as_slice());
    string_of(out.as_slice())
}

/// The magnitude of a signed value.
pub open spec fn magnitude(v: int) -> nat {
    if v >= 0 {
        v as nat
    } else {
        (-v) as nat
    }
}

/// A signed count with its sign and thousands separators, such as `+1,234` or `-5`.
pub fn format_signed_count(value: i64) -> (r: String)
    ensures
        r@ == (if value >= 0 {
            "+"@
        } else {
            "-"@
        }) + group_thousands(decimal(magnitude(value as int))),
{
    let mag: u64 = if value >= 0 {
        value as u64
    } else {
        (-(value + 1)) as u64 + 1
    };
    let body = format_count(mag);
    let mut out: Vec<char> = if value >= 0 {
        chars_of("+")
    } else {
        chars_of("-")
    };
    push_str(&mut out, body.as_str());
    string_of(out.as_slice())
}

/// The last two dot-separated parts of the name after its last `/`.
pub open spec fn short_method_spec(method: Seq<char>) -> Seq<char> {
    let c = after_last(method, '/');
    match rfind(c, "."@) {
        None => c,
        Some(i) => match rfind(c.take(i), "."@) {
            None => c,
            Some(j) => c.skip(j + 1),
        },
    }
}

/// A compact method name: the last two dot-separated parts after the last `/`.
pub fn short_method(method: &str) -> (r: String)
    ensures
        r@ == short_method_spec(method@),
{
    proof {
        reveal_strlit(".");
    }
    let m = chars_of(method);
    let c = crate::jvm::after_last_exec(m.as_slice(), '/');
    let dot = chars_of(".");
    let n = c.len();
    match rfind_exec(c.as_slice(), dot.as_slice()) {
        None => string_of(c.as_slice()),
        Some(i) => {
            proof {
                lemma_rfind(c@, "."@);
            }
            let head = sub_chars(c.as_slice(), 0, i);
            assert(head@ =~= c@.take(i as int));
            match rfind_exec(head.as_slice(), dot.as_slice()) {
                None => string_of(c.as_slice()),
                Some(j) => {
                    proof {
                        lemma_rfind(head@, "."@);
                    }
                    assert(j + 1 <= n);
                    let tail = sub_chars(c.as_slice(), j + 1, n);
                    assert(tail@ =~= c@.skip(j + 1));
                    string_of(tail.as_slice())
                },
            }
        },
    }
}

/// The text shortened to its first and last characters around `...` when it is longer than
/// `max_chars`.
pub open spec fn truncate_middle_spec(text: Seq<char>, max_chars: nat) -> Seq<char> {
    if text.len() <= max_chars {
        text
    } else {
        let head = max_chars / 2;
        let tail = if max_chars >= head + 3 {
            (max_chars - head - 3) as nat
        } else {
            0
        };
        text.take(head as int) + "..."@ + text.skip(text.len() - tail)
    }
}

/// The text shortened around `...` in the middle when it has more than `max_chars` characters.
pub fn truncate_middle(text: &str, max_chars: usize) -> (r: String)
    ensures
        r@ == truncate_middle_spec(text@, max_chars as nat),
{
    let t = chars_of(text);
    let count = t.len();
    if count <= max_chars {
        return string_of(t.as_slice());
    }
    let head = max_chars / 2;
    let tail = max_chars.saturating_sub(head + 3);
    let mut out = sub_chars(t.as_slice(), 0, head);
    push_str(&mut out, "...");
    push_all(&mut out, sub_chars(t.as_slice(), count - tail, count).as_slice());
    proof {
        assert(t@.subrange(0, head as int) =~= t@.take(head as int));
        assert(t@.subrange(count - tail, count as int) =~= t@.skip(count - tail));
    }
    string_of(out.as_slice())
}

} // verus!

verus! {

/// `2^e`.
pub open spec fn pow2(e: nat) -> nat
    decreases e,
{
    if e == 0 {
        1
    } else {
        2 * pow2((e - 1) as nat)
    }
}

/// The number of binary digits of `n` (0 for 0).
pub open spec fn bit_len(n: nat) -> nat
    decreases n,
{
    if n == 0 {
        0
    } else {
        1 + bit_len(n / 2)
    }
}

/// `a / b` rounded to the nearest integer, ties to the even one.
pub open spec fn round_div_even(a: nat, b: nat) -> nat {
    let q = a / b;
    let r = a % b;
    if 2 * r > b || (2 * r == b && q % 2 == 1) {
        q + 1
    } else {
        q
    }
}

/// The binary64 value nearest to `n` (ties to even): what `n as f64` holds.
pub open spec fn to_f64(n: nat) -> nat {
    if bit_len(n) <= 53 {
        n
    } else {
        let s = (bit_len(n) - 53) as nat;
        let q = n / pow2(s);
        let r = n % pow2(s);
        let h = pow2(s) / 2;
        let q2 = if r > h || (r == h && q % 2 == 1) {
            q + 1
        } else {
            q
        };
        q2 * pow2(s)
    }
}

/// For `1 <= a / b < 2^53`: the binary64 value nearest to `a / b` (ties to even), as a
/// mantissa `m` and an exponent `e` with value `m / 2^e` (what `a as f64 / b as f64` holds).
pub open spec fn f64_quotient(a: nat, b: nat) -> (nat, nat) {
    let e = (53 - bit_len(a / b)) as nat;
    let num = a * pow2(e);
    let m0 = num / b;
    let r = num % b;
    let m = if 2 * r > b || (2 * r == b && m0 % 2 == 1) {
        m0 + 1
    } else {
        m0
    };
    (m, e)
}

/// The binary64 quotient `a / b` formatted with `{:.0}`: rounded to an integer, ties to even.
pub open spec fn quotient_round0(a: nat, b: nat) -> nat {
    round_div_even(f64_quotient(a, b).0, pow2(f64_quotient(a, b).1))
}

pub proof fn lemma_pow2_pos(e: nat)
    ensures
        pow2(e) >= 1,
    decreases e,
{
    if e > 0 {
        lemma_pow2_pos((e - 1) as nat);
    }
}

pub proof fn lemma_pow2_add(a: nat, b: nat)
    ensures
        pow2(a + b) == pow2(a) * pow2(b),
    decreases a,
{
    if a > 0 {
        let a1 = (a - 1) as nat;
        lemma_pow2_add(a1, b);
        assert((a + b) as nat - 1 == a1 + b);
        assert(pow2(a + b) == 2 * pow2(a1 + b));
        assert(pow2(a) == 2 * pow2(a1));
        let x = pow2(a1);
        let y = pow2(b);
        assert(2 * (x * y) == (2 * x) * y) by (nonlinear_arith);
    } else {
        assert(pow2(a) == 1);
        assert(a + b == b);
    }
}

pub proof fn lemma_pow2_mono(a: nat, b: nat)
    requires
        a <= b,
    ensures
        pow2(a) <= pow2(b),
    decreases b,
{
    if a < b {
        lemma_pow2_mono(a, (b - 1) as nat);
    }
}

pub proof fn lemma_bit_len(n: nat)
    ensures
        n < pow2(bit_len(n)),
        n >= 1 ==> pow2((bit_len(n) - 1) as nat) <= n,
        n >= 1 ==> bit_len(n) >= 1,
    decreases n,
{
    if n > 0 {
        lemma_bit_len(n / 2);
    }
}

pub proof fn lemma_bit_len_le(n: nat, k: nat)
    requires
        n < pow2(k),
    ensures
        bit_len(n) <= k,
    decreases k,
{
    if n > 0 {
        if k == 0 {
            assert(false);
        } else {
            lemma_bit_len_le(n / 2, (k - 1) as nat);
        }
    }
}

pub proof fn lemma_pow2_64()
    ensures
        pow2(64) == 0x1_0000_0000_0000_0000,
{
    reveal_with_fuel(pow2, 65);
}

/// `2^e`.
fn pow2_exec(e: u32) -> (p: u128)
    requires
        e <= 64,
    ensures
        p == pow2(e as nat),
        p <= 0x1_0000_0000_0000_0000,
{
    proof {
        lemma_pow2_64();
    }
    let mut p: u128 = 1;
    let mut i: u32 = 0;
    while i < e
        invariant
            i <= e <= 64,
            p == pow2(i as nat),
            pow2(64) == 0x1_0000_0000_0000_0000,
        decreases e - i,
    {
        proof {
            lemma_pow2_mono((i + 1) as nat, 64);
        }
        p = p * 2;
        i = i + 1;
    }
    proof {
        lemma_pow2_mono(e as nat, 64);
    }
    p
}

/// The number of binary digits of `n`.
fn bit_len_exec(n: u64) -> (k: u32)
    ensures
        k as nat == bit_len(n as nat),
        k <= 64,
{
    proof {
        lemma_pow2_64();
        lemma_bit_len_le(n as nat, 64);
    }
    let mut m = n;
    let mut k: u32 = 0;
    while m > 0
        invariant
            bit_len(n as nat) == k + bit_len(m as nat),
            bit_len(n as nat) <= 64,
        decreases m,
    {
        m = m / 2;
        k = k + 1;
    }
    k
}

/// `a / b` rounded to the nearest integer, ties to even.
fn round_div_even_exec(a: u128, b: u128) -> (r: u128)
    requires
        b > 0,
        a < 0x8000_0000_0000_0000_0000_0000_0000_0000,
        b < 0x8000_0000_0000_0000_0000_0000_0000_0000,
    ensures
        r == round_div_even(a as nat, b as nat),
{
    let q = a / b;
    let r = a % b;
    if 2 * r > b || (2 * r == b && q % 2 == 1) {
        q + 1
    } else {
        q
    }
}

} // verus!

verus! {

pub proof fn lemma_pow2_consts()
    ensures
        pow2(11) == 2048,
        pow2(20) == 1048576,
        pow2(52) == 0x10_0000_0000_0000,
        pow2(53) == 0x20_0000_0000_0000,
        pow2(64) == 0x1_0000_0000_0000_0000,
{
    reveal_with_fuel(pow2, 13);
    assert(pow2(1) == 2);
    assert(pow2(10) == 1024);
    assert(pow2(11) == 2048);
    assert(pow2(12) == 4096);
    lemma_pow2_add(10, 10);
    assert(pow2(20) == 1048576);
    lemma_pow2_add(20, 12);
    assert(pow2(32) == 0x1_0000_0000);
    lemma_pow2_add(20, 32);
    assert(pow2(52) == 0x10_0000_0000_0000);
    lemma_pow2_add(52, 1);
    assert(pow2(53) == 0x20_0000_0000_0000);
    lemma_pow2_add(32, 32);
}

/// `n as f64`, as the integer it holds.
fn to_f64_exec(n: u64) -> (f: u128)
    ensures
        f == to_f64(n as nat),
        f <= 0x1_0000_0000_0000_0000,
        n < 0x20_0000_0000_0000 ==> f == n,
        n >= 0x20_0000_0000_0000 ==> f >= 0x10_0000_0000_0000,
{
    proof {
        lemma_pow2_consts();
    }
    let k = bit_len_exec(n);
    proof {
        lemma_bit_len(n as nat);
        if n < 0x20_0000_0000_0000 {
            lemma_bit_len_le(n as nat, 53);
        }
    }
    if k <= 53 {
        proof {
            if n >= 0x20_0000_0000_0000 {
                lemma_pow2_mono(k as nat, 53);
            }
        }
        return n as u128;
    }
    let s = k - 53;
    let p = pow2_exec(s);
    proof {
        lemma_pow2_pos(s as nat);
    }
    let nn = n as u128;
    let q = nn / p;
    let r = nn % p;
    let h = p / 2;
    proof {
        lemma_bit_len(n as nat);
        lemma_pow2_add(53, s as nat);
        lemma_pow2_pos(s as nat);
        lemma_pow2_mono(k as nat, 64);
        let ps: nat = pow2(s as nat);
        let p53: nat = pow2(53);
        let qq: nat = q as nat;
        let nv: nat = nn as nat;
        assert(nv < p53 * ps);
        assert(qq < p53) by (nonlinear_arith)
            requires
                nv < p53 * ps,
                ps > 0,
                qq == nv / ps,
        ;
    }
    let q2 = if r > h || (r == h && q % 2 == 1) {
        q + 1
    } else {
        q
    };
    proof {
        let ps: nat = pow2(s as nat);
        let p53: nat = pow2(53);
        let q2n: nat = q2 as nat;
        assert(q2n * ps <= p53 * ps) by (nonlinear_arith)
            requires
                q2n <= p53,
                ps > 0,
        ;
        lemma_pow2_add(52, s as nat);
        assert((k - 1) as nat == 52 + s);
        let nv: nat = nn as nat;
        let qq: nat = q as nat;
        let p52: nat = pow2(52);
        assert(nv >= p52 * ps);
        assert(qq >= p52) by (nonlinear_arith)
            requires
                nv >= p52 * ps,
                ps > 0,
                qq == nv / ps,
        ;
        assert(q2n * ps >= q2n) by (nonlinear_arith)
            requires
                ps > 0,
        ;
    }
    q2 * p
}

proof fn lemma_scaled_quotient(a: nat, b: nat, pk: nat, pe: nat)
    requires
        b >= 1,
        a / b < pk,
    ensures
        (a * pe) / b < pk * pe || pe == 0,
        a * pe < b * (pk * pe) || pe == 0,
{
    if pe > 0 {
        let q = a / b;
        assert(a < b * pk) by (nonlinear_arith)
            requires
                b >= 1,
                q == a / b,
                q < pk,
        ;
        assert(a * pe < (b * pk) * pe) by (nonlinear_arith)
            requires
                a < b * pk,
                pe > 0,
        ;
        assert((b * pk) * pe == b * (pk * pe)) by (nonlinear_arith);
        assert((a * pe) / b < pk * pe) by (nonlinear_arith)
            requires
                a * pe < b * (pk * pe),
                b >= 1,
        ;
    }
}

proof fn lemma_round_div_bound(m: nat, pe: nat)
    requires
        pe >= 1,
    ensures
        round_div_even(m, pe) <= m / pe + 1,
        m / pe <= m,
{
    assert(m / pe <= m) by (nonlinear_arith)
        requires
            pe >= 1,
    ;
}

/// The binary64 quotient `a / b` formatted with `{:.0}`.
fn quotient_round0_exec(a: u128, b: u128) -> (r: u64)
    requires
        1 <= b <= a <= 0x1_0000_0000_0000_0000,
        a / b < pow2(53),
    ensures
        r == quotient_round0(a as nat, b as nat),
{
    proof {
        lemma_pow2_consts();
    }
    let qi = a / b;
    assert(qi >= 1) by (nonlinear_arith)
        requires
            qi == a / b,
            1 <= b <= a,
    ;
    let k = bit_len_exec(qi as u64);
    proof {
        lemma_bit_len(qi as nat);
        lemma_bit_len_le(qi as nat, 53);
    }
    let e = 53 - k;
    let pe = pow2_exec(e);
    proof {
        lemma_pow2_mono(e as nat, 52);
        lemma_pow2_add(k as nat, e as nat);
        lemma_pow2_pos(e as nat);
        assert(k as nat + e as nat == 53);
        lemma_scaled_quotient(a as nat, b as nat, pow2(k as nat), pe as nat);
        let bn: nat = b as nat;
        let an: nat = a as nat;
        let pen: nat = pe as nat;
        assert(an * pen < bn * pow2(53));
        assert(bn * pow2(53) <= 0x1_0000_0000_0000_0000 * 0x20_0000_0000_0000) by (
        nonlinear_arith)
            requires
                bn <= 0x1_0000_0000_0000_0000,
                pow2(53) == 0x20_0000_0000_0000,
        ;
    }
    let num = a * pe;
    let m0 = num / b;
    let r = num % b;
    let m = if 2 * r > b || (2 * r == b && m0 % 2 == 1) {
        m0 + 1
    } else {
        m0
    };
    assert(m <= 0x20_0000_0000_0000);
    let out = round_div_even_exec(m, pe);
    proof {
        lemma_round_div_bound(m as nat, pe as nat);
    }
    out as u64
}

/// A byte count for display: one decimal place in MB from 1 MiB up, whole kB (rounded up) from
/// 1 KiB up, plain bytes below. The MB figure is `bytes as f64 / 2^20` printed with `{:.1}`.
pub open spec fn bytes_text(bytes: nat) -> Seq<char> {
    if bytes >= 1048576 {
        let t = round_div_even(to_f64(bytes) * 10, pow2(20));
        decimal(t / 10) + "."@ + decimal(t % 10) + " MB"@
    } else if bytes >= 1024 {
        group_thousands(decimal((bytes + 1023) / 1024)) + " kB"@
    } else {
        group_thousands(decimal(bytes)) + " bytes"@
    }
}

/// A byte count in MB, kB or bytes.
pub fn format_bytes(bytes: u64) -> (r: String)
    ensures
        r@ == bytes_text(bytes as nat),
{
    if bytes >= 1048576 {
        proof {
            lemma_pow2_consts();
        }
        let f = to_f64_exec(bytes);
        let t = round_div_even_exec(f * 10, 1048576);
        proof {
            lemma_round_div_bound((f * 10) as nat, 1048576);
        }
        assert(t / 10 <= 0x10_0000_0000_0000);
        let mut out = decimal_chars((t / 10) as u64);
        push_str(&mut out, ".");
        push_all(&mut out, decimal_chars((t % 10) as u64).as_slice());
        push_str(&mut out, " MB");
        string_of(out.as_slice())
    } else if bytes >= 1024 {
        let mut out: Vec<char> = chars_of(format_count((bytes + 1023) / 1024).as_str());
        push_str(&mut out, " kB");
        string_of(out.as_slice())
    } else {
        let mut out: Vec<char> = chars_of(format_count(bytes).as_str());
        push_str(&mut out, " bytes");
        string_of(out.as_slice())
    }
}

/// A signed byte count: `+` or `-` before the magnitude in MB, kB or bytes.
pub fn format_signed_bytes(bytes: i64) -> (r: String)
    ensures
        r@ == (if bytes >= 0 {
            "+"@
        } else {
            "-"@
        }) + bytes_text(magnitude(bytes as int)),
{
    let mag: u64 = if bytes >= 0 {
        bytes as u64
    } else {
        (-(bytes + 1)) as u64 + 1
    };
    let body = format_bytes(mag);
    let mut out: Vec<char> = if bytes >= 0 {
        chars_of("+")
    } else {
        chars_of("-")
    };
    push_str(&mut out, body.as_str());
    string_of(out.as_slice())
}

/// A duration in nanoseconds for display: whole minutes or seconds (the quotient of
/// `nanos as f64` printed with `{:.0}`), else whole ms, us or ns, truncated.
pub open spec fn duration_text(n: nat) -> Seq<char> {
    if n >= 60_000_000_000 {
        decimal(quotient_round0(to_f64(n), 60_000_000_000)) + " m"@
    } else if n >= 1_000_000_000 {
        decimal(quotient_round0(to_f64(n), 1_000_000_000)) + " s"@
    } else if n >= 1_000_000 {
        group_thousands(decimal(n / 1_000_000)) + " ms"@
    } else if n >= 1000 {
        group_thousands(decimal(n / 1000)) + " us"@
    } else {
        group_thousands(decimal(n)) + " ns"@
    }
}

/// A duration in nanoseconds in m, s, ms, us or ns.
pub fn format_duration_nano(nanos: u64) -> (r: String)
    ensures
        r@ == duration_text(nanos as nat),
{
    if nanos >= 1_000_000_000 {
        proof {
            lemma_pow2_consts();
        }
        let f = to_f64_exec(nanos);
        let (b, unit): (u128, &str) = if nanos >= 60_000_000_000 {
            (60_000_000_000, " m")
        } else {
            (1_000_000_000, " s")
        };
        assert(f >= b);
        assert(f / b < 0x20_0000_0000_0000);
        let q = quotient_round0_exec(f, b);
        let mut out = decimal_chars(q);
        push_str(&mut out, unit);
        string_of(out.as_slice())
    } else {
        let (v, unit): (u64, &str) = if nanos >= 1_000_000 {
            (nanos / 1_000_000, " ms")
        } else if nanos >= 1000 {
            (nanos / 1000, " us")
        } else {
            (nanos, " ns")
        };
        let mut out: Vec<char> = chars_of(format_count(v).as_str());
        push_str(&mut out, unit);
        string_of(out.as_slice())
    }
}


/// A text longer than the limit is cut to exactly the limit when the limit leaves room for the
/// ellipsis and a tail (5 or more), and to half the limit plus the ellipsis below that; text
/// within the limit is kept as it is.
pub proof fn lemma_truncate_middle_len(text: Seq<char>, max_chars: nat)
    ensures
        text.len() <= max_chars ==> truncate_middle_spec(text, max_chars) == text,
        text.len() > max_chars && max_chars >= 5 ==> truncate_middle_spec(text, max_chars).len()
            == max_chars,
        text.len() > max_chars && max_chars < 5 ==> truncate_middle_spec(text, max_chars).len()
            == max_chars / 2 + 3,
{
    reveal_strlit("...");
}

} // verus!

verus! {

/// The text with its commas taken out.
pub open spec fn without_commas(s: Seq<char>) -> Seq<char>
    decreases s.len(),
{
    if s.len() == 0 {
        s
    } else if s.last() == ',' {
        without_commas(s.drop_last())
    } else {
        without_commas(s.drop_last()).push(s.last())
    }
}

proof fn lemma_without_commas_append(a: Seq<char>, b: Seq<char>)
    ensures
        without_commas(a + b) == without_commas(a) + without_commas(b),
    decreases b.len(),
{
    if b.len() == 0 {
        assert(a + b =~= a);
        assert(without_commas(a) + without_commas(b) =~= without_commas(a));
    } else {
        assert((a + b).drop_last() =~= a + b.drop_last());
        assert((a + b).last() == b.last());
        lemma_without_commas_append(a, b.drop_last());
        if b.last() != ',' {
            assert(without_commas(a) + without_commas(b.drop_last()).push(b.last()) =~= (
            without_commas(a) + without_commas(b.drop_last())).push(b.last()));
        }
    }
}

proof fn lemma_without_commas_plain(s: Seq<char>)
    requires
        forall|i: int| 0 <= i < s.len() ==> s[i] != ',',
    ensures
        without_commas(s) == s,
    decreases s.len(),
{
    if s.len() > 0 {
        lemma_without_commas_plain(s.drop_last());
        assert(without_commas(s.drop_last()).push(s.last()) =~= s);
    }
}

/// Grouping digits in threes: the commas stand exactly where a multiple of four characters
/// follows (never at the front), the first group has one to three digits, and taking the commas
/// out gives the digits back.
proof fn lemma_group_thousands_shape(d: Seq<char>)
    requires
        d.len() >= 1,
        forall|i: int| 0 <= i < d.len() ==> d[i] != ',',
    ensures
        without_commas(group_thousands(d)) == d,
        group_thousands(d).len() % 4 != 0,
        forall|i: int|
            0 <= i < group_thousands(d).len() ==> (#[trigger] group_thousands(d)[i] == ',' <==> (i
                > 0 && (group_thousands(d).len() - i) % 4 == 0)),
    decreases d.len(),
{
    let r = group_thousands(d);
    if d.len() <= 3 {
        lemma_without_commas_plain(d);
    } else {
        let t = d.take(d.len() - 3);
        let tail = d.skip(d.len() - 3);
        lemma_group_thousands_shape(t);
        let g = group_thousands(t);
        assert(r == g + ","@ + tail);
        assert(","@ =~= seq![',']) by {
            reveal_strlit(",");
        }
        lemma_without_commas_plain(tail);
        lemma_without_commas_append(g, ","@);
        lemma_without_commas_append(g + ","@, tail);
        assert(without_commas(seq![',']) =~= Seq::<char>::empty()) by {
            let c = seq![','];
            assert(c.len() == 1);
            assert(c.last() == ',');
            assert(c.drop_last() =~= Seq::<char>::empty());
            assert(without_commas(c) == without_commas(c.drop_last()));
        }
        assert(without_commas(g) + without_commas(","@) =~= t);
        assert(t + tail =~= d);
        assert forall|i: int| 0 <= i < r.len() implies (#[trigger] r[i] == ',' <==> (i > 0 && (
        r.len() - i) % 4 == 0)) by {
            if i < g.len() {
                assert(r[i] == g[i]);
                assert(g[i] == ',' <==> (i > 0 && (g.len() - i) % 4 == 0));
                assert((r.len() - i) % 4 == (g.len() - i) % 4) by {
                    assert(r.len() - i == (g.len() - i) + 4);
                }
            } else if i == g.len() {
                assert(r[i] == ',');
            } else {
                assert(r[i] == tail[i - g.len() - 1]);
                assert(tail[i - g.len() - 1] == d[d.len() - 3 + (i - g.len() - 1)]);
            }
        }
    }
}

proof fn lemma_decimal_digits(n: nat)
    ensures
        decimal(n).len() >= 1,
        forall|i: int| 0 <= i < decimal(n).len() ==> '0' <= #[trigger] decimal(n)[i] <= '9',
    decreases n,
{
    if n >= 10 {
        lemma_decimal_digits(n / 10);
    }
}

/// A formatted count is the decimal text of the value with a comma before every group of three
/// digits counted from the right: taking the commas out gives the decimal text back, the commas
/// stand exactly where a multiple of four characters follows (never at the front), and so the
/// first group has one to three digits and every later group exactly three.
pub proof fn lemma_format_count_groups(value: u64)
    ensures
        without_commas(group_thousands(decimal(value as nat))) == decimal(value as nat),
        group_thousands(decimal(value as nat)).len() % 4 != 0,
        forall|i: int|
            0 <= i < group_thousands(decimal(value as nat)).len() ==> (#[trigger] group_thousands(
                decimal(value as nat),
            )[i] == ',' <==> (i > 0 && (group_thousands(decimal(value as nat)).len() - i) % 4
                == 0)),
{
    let d = decimal(value as nat);
    lemma_decimal_digits(value as nat);
    assert forall|i: int| 0 <= i < d.len() implies d[i] != ',' by {
        assert('0' <= d[i] <= '9');
    }
    lemma_group_thousands_shape(d);
}

} // verus!
