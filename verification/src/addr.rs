//! The address model of the chat tool: an IPv4 host together with a port,
//! held as plain integers, with canonical-text parsing and formatting.
use vstd::prelude::*;
use vstd::arithmetic::div_mod::lemma_fundamental_div_mod_converse;
use vstd::string::StringSliceAdditionalSpecFns;

verus! {

/// An IPv4 socket address: four octets and a port.
/// Port `0` stands for "let the operating system pick an ephemeral port".
#[derive(Clone, Copy, PartialEq, Eq, Structural, Debug)]
pub struct HostPort {
    pub a: u8,
    pub b: u8,
    pub c: u8,
    pub d: u8,
    pub port: u16,
}

/// ASCII decimal digit.
spec fn is_digit(ch: u8) -> bool {
    48 <= ch && ch <= 57
}

/// The canonical decimal rendering of a number: no leading zeros,
/// a single `0` for zero.
pub open spec fn dec_str(n: nat) -> Seq<u8>
    decreases n,
{
    if n < 10 {
        seq![(48 + n) as u8]
    } else {
        dec_str(n / 10) + seq![(48 + n % 10) as u8]
    }
}

/// The number a digit string denotes, most significant digit first.
spec fn dec_val(s: Seq<u8>) -> int
    decreases s.len(),
{
    if s.len() == 0 {
        0
    } else {
        dec_val(s.drop_last()) * 10 + s.last() - 48
    }
}

/// A digit string in canonical form: nonempty, and no leading zero
/// unless it is exactly `0`.
spec fn is_canon(s: Seq<u8>) -> bool {
    &&& s.len() >= 1
    &&& forall|k: int| 0 <= k < s.len() ==> is_digit(s[k])
    &&& (s.len() == 1 || s[0] != 48)
}

spec fn pow10(k: nat) -> int
    decreases k,
{
    if k == 0 {
        1
    } else {
        10 * pow10((k - 1) as nat)
    }
}

proof fn lemma_dec_str_props(n: nat)
    ensures
        is_canon(dec_str(n)),
        dec_val(dec_str(n)) == n,
        n >= 1 ==> dec_str(n)[0] != 48,
        n < 10 ==> dec_str(n).len() == 1,
    decreases n,
{
    if n < 10 {
        let s = dec_str(n);
        assert(s =~= seq![(48 + n) as u8]);
        assert(s.drop_last() =~= Seq::<u8>::empty());
        assert(s.last() as int == 48 + n as int);
        assert(dec_val(s) == dec_val(s.drop_last()) * 10 + s.last() - 48);
        assert(dec_val(s.drop_last()) == 0);
    } else {
        lemma_dec_str_props(n / 10);
        let hd = dec_str(n / 10);
        let s = dec_str(n);
        assert(s =~= hd + seq![(48 + n % 10) as u8]);
        assert(s.drop_last() =~= hd);
        assert(s[0] == hd[0]);
        assert(n / 10 >= 1);
        assert((48 + n % 10) as u8 == 48 + n % 10);
        assert(dec_val(s) == dec_val(hd) * 10 + (48 + n % 10) - 48);
        assert(n / 10 * 10 + n % 10 == n) by {
            vstd::arithmetic::div_mod::lemma_fundamental_div_mod(n as int, 10);
        }
    }
}

proof fn lemma_dec_str_len(n: nat)
    ensures
        n <= 9 ==> dec_str(n).len() == 1,
        n <= 99 ==> dec_str(n).len() <= 2,
        n <= 999 ==> dec_str(n).len() <= 3,
        n <= 9999 ==> dec_str(n).len() <= 4,
        n <= 99999 ==> dec_str(n).len() <= 5,
    decreases n,
{
    if n >= 10 {
        lemma_dec_str_len(n / 10);
        assert(dec_str(n).len() == dec_str(n / 10).len() + 1);
    }
}

proof fn lemma_dec_val_bound(s: Seq<u8>)
    requires
        forall|k: int| 0 <= k < s.len() ==> is_digit(s[k]),
    ensures
        0 <= dec_val(s) < pow10(s.len()),
    decreases s.len(),
{
    if s.len() > 0 {
        let s0 = s.drop_last();
        assert(forall|k: int| 0 <= k < s0.len() ==> is_digit(s0[k]));
        lemma_dec_val_bound(s0);
        assert(is_digit(s.last()));
        assert(dec_val(s0) <= pow10(s0.len()) - 1);
        assert(dec_val(s0) * 10 <= (pow10(s0.len()) - 1) * 10) by (nonlinear_arith)
            requires dec_val(s0) <= pow10(s0.len()) - 1;
        assert(pow10(s.len()) == 10 * pow10(s0.len()));
    }
}

/// A canonical digit string with a nonzero first digit denotes at least 1.
proof fn lemma_dec_val_pos(s: Seq<u8>)
    requires
        s.len() >= 1,
        forall|k: int| 0 <= k < s.len() ==> is_digit(s[k]),
        s[0] != 48,
    ensures
        dec_val(s) >= 1,
    decreases s.len(),
{
    if s.len() == 1 {
        assert(s.drop_last() =~= Seq::<u8>::empty());
        assert(dec_val(s.drop_last()) == 0);
        assert(s.last() == s[0]);
        assert(dec_val(s) == dec_val(s.drop_last()) * 10 + s.last() - 48);
        assert(is_digit(s[0]));
    } else {
        let s0 = s.drop_last();
        assert(forall|k: int| 0 <= k < s0.len() ==> s0[k] == s[k]);
        assert(s0.len() >= 1);
        assert(s0[0] != 48);
        lemma_dec_val_pos(s0);
        assert(is_digit(s.last()));
        assert(s.last() >= 48);
        assert(dec_val(s) == dec_val(s0) * 10 + s.last() - 48);
        assert(dec_val(s0) * 10 >= 10);
    }
}

/// A canonical digit string is the canonical rendering of its own value.
proof fn lemma_canon_dec_str(s: Seq<u8>)
    requires
        is_canon(s),
    ensures
        0 <= dec_val(s),
        dec_str(dec_val(s) as nat) == s,
    decreases s.len(),
{
    lemma_dec_val_bound(s);
    if s.len() == 1 {
        let v = dec_val(s);
        assert(s.drop_last() =~= Seq::<u8>::empty());
        assert(dec_val(s.drop_last()) == 0);
        assert(s.last() == s[0]);
        assert(v == dec_val(s.drop_last()) * 10 + s.last() - 48);
        assert(v == s[0] - 48);
        assert(v < 10);
        assert(dec_str(v as nat) =~= seq![(48 + v as nat) as u8]);
        assert(dec_str(v as nat) =~= s);
    } else {
        let s0 = s.drop_last();
        assert(s0[0] == s[0]);
        assert(is_canon(s0));
        lemma_canon_dec_str(s0);
        lemma_dec_val_pos(s0);
        let v0 = dec_val(s0);
        let d = s.last() - 48;
        let v = dec_val(s);
        assert(v == v0 * 10 + d);
        assert(is_digit(s.last()));
        assert(v >= 10) by (nonlinear_arith)
            requires v == v0 * 10 + d, v0 >= 1, d >= 0;
        lemma_fundamental_div_mod_converse(v, 10, v0, d);
        assert(dec_str(v as nat) == dec_str((v / 10) as nat) + seq![(48 + (v as nat) % 10) as u8]);
        assert((v as nat) % 10 == d);
        assert(dec_str(v as nat) =~= s);
    }
}

/// Two numbers with the same canonical rendering are equal.
proof fn lemma_dec_str_injective(m: nat, n: nat)
    requires
        dec_str(m) == dec_str(n),
    ensures
        m == n,
{
    lemma_dec_str_props(m);
    lemma_dec_str_props(n);
}

/// The canonical rendering of `v` sits in `s` at index `i` and ends at a
/// non-digit byte or at the end of `s`.
spec fn num_at(s: Seq<u8>, i: int, v: nat) -> bool {
    let j = i + dec_str(v).len();
    &&& 0 <= i
    &&& j <= s.len()
    &&& s.subrange(i, j) == dec_str(v)
    &&& (j == s.len() || !is_digit(s[j]))
}

/// At most one number's canonical rendering can sit at a given index.
proof fn lemma_num_at_unique(s: Seq<u8>, i: int, v1: nat, v2: nat)
    requires
        num_at(s, i, v1),
        num_at(s, i, v2),
    ensures
        v1 == v2,
{
    lemma_dec_str_props(v1);
    lemma_dec_str_props(v2);
    let d1 = dec_str(v1);
    let d2 = dec_str(v2);
    assert(forall|k: int| 0 <= k < d1.len() ==> s[i + k] == #[trigger] d1[k]) by {
        assert(forall|k: int| 0 <= k < d1.len()
            ==> #[trigger] d1[k] == s.subrange(i, i + d1.len() as int)[k]);
    }
    assert(forall|k: int| 0 <= k < d2.len() ==> s[i + k] == #[trigger] d2[k]) by {
        assert(forall|k: int| 0 <= k < d2.len()
            ==> #[trigger] d2[k] == s.subrange(i, i + d2.len() as int)[k]);
    }
    if d1.len() < d2.len() {
        assert(is_digit(d2[d1.len() as int]));
        assert(s[i + d1.len()] == d2[d1.len() as int]);
        assert(false);
    } else if d2.len() < d1.len() {
        assert(is_digit(d1[d2.len() as int]));
        assert(s[i + d2.len()] == d1[d2.len() as int]);
        assert(false);
    } else {
        assert(d1 =~= d2);
        lemma_dec_str_injective(v1, v2);
    }
}

/// A maximal digit run over `[start, j)` pins down any `num_at` claim at
/// `start`: the rendering must be exactly that run.
proof fn lemma_run_pins(s: Seq<u8>, start: int, j: int, v: nat)
    requires
        0 <= start <= j <= s.len(),
        forall|k: int| start <= k < j ==> is_digit(s[k]),
        j == s.len() || !is_digit(s[j]),
        num_at(s, start, v),
    ensures
        start + dec_str(v).len() == j,
        dec_str(v) == s.subrange(start, j),
        dec_val(s.subrange(start, j)) == v,
{
    lemma_dec_str_props(v);
    let d = dec_str(v);
    let e = start + d.len();
    assert(forall|k: int| 0 <= k < d.len() ==> s[start + k] == #[trigger] d[k]) by {
        assert(forall|k: int| 0 <= k < d.len()
            ==> #[trigger] d[k] == s.subrange(start, start + d.len() as int)[k]);
    }
    if e < j {
        assert(is_digit(s[e]));
        assert(false);
    }
    if j < e {
        assert(is_digit(d[j - start]));
        assert(s[j] == d[j - start]);
        assert(false);
    }
    assert(e == j);
    assert(s.subrange(start, j) == d);
}

/// Index of the first non-digit byte at or after `start` (or the length of
/// the slice when every later byte is a digit).
fn scan_digits(s: &[u8], start: usize) -> (j: usize)
    requires
        start <= s@.len(),
    ensures
        start <= j <= s@.len(),
        forall|k: int| start <= k < j ==> is_digit(s@[k]),
        j == s@.len() || !is_digit(s@[j as int]),
{
    let n = s.len();
    let mut j = start;
    while j < n && 48 <= s[j] && s[j] <= 57
        invariant
            start <= j <= n,
            n == s@.len(),
            forall|k: int| start <= k < j ==> is_digit(s@[k]),
        decreases n - j,
    {
        j = j + 1;
    }
    j
}

/// Reads the canonical decimal number that starts at `start`, bounded by
/// `limit`.  Returns the value and the index just past its digits, or
/// `None` when no number `v <= limit` has its canonical rendering there.
fn read_num(s: &[u8], start: usize, limit: u16) -> (r: Option<(u16, usize)>)
    requires
        start <= s@.len(),
    ensures
        (match r {
            Some(p) => {
                &&& p.0 <= limit
                &&& num_at(s@, start as int, p.0 as nat)
                &&& p.1 == start + dec_str(p.0 as nat).len()
                &&& p.1 <= s@.len()
            },
            None => forall|v: nat| v <= limit ==> !num_at(s@, start as int, v),
        }),
{
    let j = scan_digits(s, start);
    if j == start {
        proof {
            assert forall|v: nat| v <= limit implies !num_at(s@, start as int, v) by {
                if num_at(s@, start as int, v) {
                    lemma_dec_str_props(v);
                    assert(dec_str(v)[0] == s@.subrange(
                        start as int,
                        start + dec_str(v).len() as int,
                    )[0]);
                    assert(is_digit(s@[start as int]));
                }
            }
        }
        return None;
    }
    if s[start] == 48 && j - start > 1 {
        proof {
            assert forall|v: nat| v <= limit implies !num_at(s@, start as int, v) by {
                if num_at(s@, start as int, v) {
                    lemma_run_pins(s@, start as int, j as int, v);
                    lemma_dec_str_props(v);
                    assert(dec_str(v)[0] == s@.subrange(start as int, j as int)[0]);
                    assert(dec_str(v)[0] == 48);
                }
            }
        }
        return None;
    }
    if j - start > 5 {
        proof {
            assert forall|v: nat| v <= limit implies !num_at(s@, start as int, v) by {
                if num_at(s@, start as int, v) {
                    lemma_run_pins(s@, start as int, j as int, v);
                    lemma_dec_str_len(v);
                }
            }
        }
        return None;
    }
    let mut acc: u32 = 0;
    let mut k = start;
    while k < j
        invariant
            start <= k <= j <= s@.len(),
            j - start <= 5,
            forall|t: int| start <= t < j ==> is_digit(s@[t]),
            acc as int == dec_val(s@.subrange(start as int, k as int)),
            (acc as int) < pow10((k - start) as nat),
        decreases j - k,
    {
        proof {
            assert(pow10(0) == 1);
            assert(pow10(1) == 10);
            assert(pow10(2) == 100);
            assert(pow10(3) == 1000);
            assert(pow10(4) == 10000);
            let cur = s@.subrange(start as int, k as int);
            let next = s@.subrange(start as int, k + 1 as int);
            assert(next.drop_last() =~= cur);
            assert(next.last() == s@[k as int]);
            assert(dec_val(next) == dec_val(cur) * 10 + s@[k as int] - 48);
            assert(is_digit(s@[k as int]));
        }
        acc = acc * 10 + (s[k] - 48) as u32;
        k = k + 1;
    }
    let run = Ghost(s@.subrange(start as int, j as int));
    proof {
        assert(is_canon(run@));
        lemma_canon_dec_str(run@);
        assert(dec_str(acc as nat) == run@);
    }
    if acc <= limit as u32 {
        proof {
            assert(num_at(s@, start as int, acc as nat));
        }
        Some((acc as u16, j))
    } else {
        proof {
            assert forall|v: nat| v <= limit implies !num_at(s@, start as int, v) by {
                if num_at(s@, start as int, v) {
                    lemma_run_pins(s@, start as int, j as int, v);
                    assert(dec_val(run@) == v);
                }
            }
        }
        None
    }
}

/// The canonical text of an address: `a.b.c.d:port`, each number in
/// canonical decimal.
pub open spec fn spec_format_host_port(h: HostPort) -> Seq<u8> {
    dec_str(h.a as nat) + seq![46u8] + dec_str(h.b as nat) + seq![46u8] + dec_str(h.c as nat)
        + seq![46u8] + dec_str(h.d as nat) + seq![58u8] + dec_str(h.port as nat)
}

/// Index of the first `.` in the canonical text of `h`.
spec fn dot1(h: HostPort) -> int {
    dec_str(h.a as nat).len() as int
}

/// Index of the second `.`.
spec fn dot2(h: HostPort) -> int {
    dot1(h) + 1 + dec_str(h.b as nat).len()
}

/// Index of the third `.`.
spec fn dot3(h: HostPort) -> int {
    dot2(h) + 1 + dec_str(h.c as nat).len()
}

/// Index of the `:`.
spec fn colon_at(h: HostPort) -> int {
    dot3(h) + 1 + dec_str(h.d as nat).len()
}

/// Where each numeric field and separator of the canonical text sits.
proof fn lemma_format_structure(s: Seq<u8>, h: HostPort)
    requires
        s == spec_format_host_port(h),
    ensures
        num_at(s, 0, h.a as nat),
        s[dot1(h)] == 46,
        num_at(s, dot1(h) + 1, h.b as nat),
        s[dot2(h)] == 46,
        num_at(s, dot2(h) + 1, h.c as nat),
        s[dot3(h)] == 46,
        num_at(s, dot3(h) + 1, h.d as nat),
        s[colon_at(h)] == 58,
        num_at(s, colon_at(h) + 1, h.port as nat),
        colon_at(h) + 1 + dec_str(h.port as nat).len() == s.len(),
{
    lemma_dec_str_props(h.a as nat);
    lemma_dec_str_props(h.b as nat);
    lemma_dec_str_props(h.c as nat);
    lemma_dec_str_props(h.d as nat);
    lemma_dec_str_props(h.port as nat);
    let da = dec_str(h.a as nat);
    let db = dec_str(h.b as nat);
    let dc = dec_str(h.c as nat);
    let dd = dec_str(h.d as nat);
    let dp = dec_str(h.port as nat);
    assert(s.len() == da.len() + 1 + db.len() + 1 + dc.len() + 1 + dd.len() + 1 + dp.len());
    assert(s.subrange(0, dot1(h)) =~= da);
    assert(s.subrange(dot1(h) + 1, dot2(h)) =~= db);
    assert(s.subrange(dot2(h) + 1, dot3(h)) =~= dc);
    assert(s.subrange(dot3(h) + 1, colon_at(h)) =~= dd);
    assert(s.subrange(colon_at(h) + 1, s.len() as int) =~= dp);
    assert(s[dot1(h)] == 46);
    assert(s[dot2(h)] == 46);
    assert(s[dot3(h)] == 46);
    assert(s[colon_at(h)] == 58);
}

/// `v`'s rendering at `i` implies `s[i + k]` equals the rendering's `k`-th byte.
proof fn lemma_num_at_bytes(s: Seq<u8>, i: int, v: nat)
    requires
        num_at(s, i, v),
    ensures
        forall|k: int| 0 <= k < dec_str(v).len() ==> s[i + k] == #[trigger] dec_str(v)[k],
{
    let d = dec_str(v);
    assert(forall|k: int| 0 <= k < d.len() ==> #[trigger] d[k] == s.subrange(i, i + d.len() as int)[k]);
}

/// Parses the canonical text `a.b.c.d:port` of an IPv4 address and port.
/// Returns `Some` exactly when the whole input is such a text, and then the
/// input is the canonical text of the result.
pub fn parse_host_port(s: &[u8]) -> (r: Option<HostPort>)
    ensures
        (r matches Some(h) ==> s@ == spec_format_host_port(h)),
        r is None ==> forall|h: HostPort| s@ != spec_format_host_port(h),
{
    let n = s.len();
    let ra = read_num(s, 0, 255);
    if ra.is_none() {
        proof {
            assert forall|h: HostPort| s@ != spec_format_host_port(h) by {
                if s@ == spec_format_host_port(h) {
                    lemma_format_structure(s@, h);
                    assert(!num_at(s@, 0, h.a as nat));
                }
            }
        }
        return None;
    }
    let (a, i1) = ra.unwrap();
    if i1 >= n || s[i1] != 46 {
        proof {
            assert forall|h: HostPort| s@ != spec_format_host_port(h) by {
                if s@ == spec_format_host_port(h) {
                    lemma_format_structure(s@, h);
                    lemma_num_at_unique(s@, 0, a as nat, h.a as nat);
                    assert(i1 == dot1(h));
                }
            }
        }
        return None;
    }
    let rb = read_num(s, i1 + 1, 255);
    if rb.is_none() {
        proof {
            assert forall|h: HostPort| s@ != spec_format_host_port(h) by {
                if s@ == spec_format_host_port(h) {
                    lemma_format_structure(s@, h);
                    lemma_num_at_unique(s@, 0, a as nat, h.a as nat);
                    assert(i1 == dot1(h));
                    assert(!num_at(s@, i1 + 1, h.b as nat));
                }
            }
        }
        return None;
    }
    let (b, i2) = rb.unwrap();
    if i2 >= n || s[i2] != 46 {
        proof {
            assert forall|h: HostPort| s@ != spec_format_host_port(h) by {
                if s@ == spec_format_host_port(h) {
                    lemma_format_structure(s@, h);
                    lemma_num_at_unique(s@, 0, a as nat, h.a as nat);
                    assert(i1 == dot1(h));
                    lemma_num_at_unique(s@, i1 + 1, b as nat, h.b as nat);
                    assert(i2 == dot2(h));
                }
            }
        }
        return None;
    }
    let rc = read_num(s, i2 + 1, 255);
    if rc.is_none() {
        proof {
            assert forall|h: HostPort| s@ != spec_format_host_port(h) by {
                if s@ == spec_format_host_port(h) {
                    lemma_format_structure(s@, h);
                    lemma_num_at_unique(s@, 0, a as nat, h.a as nat);
                    assert(i1 == dot1(h));
                    lemma_num_at_unique(s@, i1 + 1, b as nat, h.b as nat);
                    assert(i2 == dot2(h));
                    assert(!num_at(s@, i2 + 1, h.c as nat));
                }
            }
        }
        return None;
    }
    let (c, i3) = rc.unwrap();
    if i3 >= n || s[i3] != 46 {
        proof {
            assert forall|h: HostPort| s@ != spec_format_host_port(h) by {
                if s@ == spec_format_host_port(h) {
                    lemma_format_structure(s@, h);
                    lemma_num_at_unique(s@, 0, a as nat, h.a as nat);
                    assert(i1 == dot1(h));
                    lemma_num_at_unique(s@, i1 + 1, b as nat, h.b as nat);
                    assert(i2 == dot2(h));
                    lemma_num_at_unique(s@, i2 + 1, c as nat, h.c as nat);
                    assert(i3 == dot3(h));
                }
            }
        }
        return None;
    }
    let rd = read_num(s, i3 + 1, 255);
    if rd.is_none() {
        proof {
            assert forall|h: HostPort| s@ != spec_format_host_port(h) by {
                if s@ == spec_format_host_port(h) {
                    lemma_format_structure(s@, h);
                    lemma_num_at_unique(s@, 0, a as nat, h.a as nat);
                    assert(i1 == dot1(h));
                    lemma_num_at_unique(s@, i1 + 1, b as nat, h.b as nat);
                    assert(i2 == dot2(h));
                    lemma_num_at_unique(s@, i2 + 1, c as nat, h.c as nat);
                    assert(i3 == dot3(h));
                    assert(!num_at(s@, i3 + 1, h.d as nat));
                }
            }
        }
        return None;
    }
    let (d, i4) = rd.unwrap();
    if i4 >= n || s[i4] != 58 {
        proof {
            assert forall|h: HostPort| s@ != spec_format_host_port(h) by {
                if s@ == spec_format_host_port(h) {
                    lemma_format_structure(s@, h);
                    lemma_num_at_unique(s@, 0, a as nat, h.a as nat);
                    assert(i1 == dot1(h));
                    lemma_num_at_unique(s@, i1 + 1, b as nat, h.b as nat);
                    assert(i2 == dot2(h));
                    lemma_num_at_unique(s@, i2 + 1, c as nat, h.c as nat);
                    assert(i3 == dot3(h));
                    lemma_num_at_unique(s@, i3 + 1, d as nat, h.d as nat);
                    assert(i4 == colon_at(h));
                }
            }
        }
        return None;
    }
    let rp = read_num(s, i4 + 1, 65535);
    if rp.is_none() {
        proof {
            assert forall|h: HostPort| s@ != spec_format_host_port(h) by {
                if s@ == spec_format_host_port(h) {
                    lemma_format_structure(s@, h);
                    lemma_num_at_unique(s@, 0, a as nat, h.a as nat);
                    assert(i1 == dot1(h));
                    lemma_num_at_unique(s@, i1 + 1, b as nat, h.b as nat);
                    assert(i2 == dot2(h));
                    lemma_num_at_unique(s@, i2 + 1, c as nat, h.c as nat);
                    assert(i3 == dot3(h));
                    lemma_num_at_unique(s@, i3 + 1, d as nat, h.d as nat);
                    assert(i4 == colon_at(h));
                    assert(!num_at(s@, i4 + 1, h.port as nat));
                }
            }
        }
        return None;
    }
    let (p, i5) = rp.unwrap();
    if i5 != n {
        proof {
            assert forall|h: HostPort| s@ != spec_format_host_port(h) by {
                if s@ == spec_format_host_port(h) {
                    lemma_format_structure(s@, h);
                    lemma_num_at_unique(s@, 0, a as nat, h.a as nat);
                    assert(i1 == dot1(h));
                    lemma_num_at_unique(s@, i1 + 1, b as nat, h.b as nat);
                    assert(i2 == dot2(h));
                    lemma_num_at_unique(s@, i2 + 1, c as nat, h.c as nat);
                    assert(i3 == dot3(h));
                    lemma_num_at_unique(s@, i3 + 1, d as nat, h.d as nat);
                    assert(i4 == colon_at(h));
                    lemma_num_at_unique(s@, i4 + 1, p as nat, h.port as nat);
                    assert(i5 == s@.len());
                }
            }
        }
        return None;
    }
    let h = HostPort { a: a as u8, b: b as u8, c: c as u8, d: d as u8, port: p };
    proof {
        lemma_num_at_bytes(s@, 0, a as nat);
        lemma_num_at_bytes(s@, i1 + 1, b as nat);
        lemma_num_at_bytes(s@, i2 + 1, c as nat);
        lemma_num_at_bytes(s@, i3 + 1, d as nat);
        lemma_num_at_bytes(s@, i4 + 1, p as nat);
        assert(h.a as nat == a as nat);
        assert(h.b as nat == b as nat);
        assert(h.c as nat == c as nat);
        assert(h.d as nat == d as nat);
        assert(s@ =~= spec_format_host_port(h));
    }
    Some(h)
}

/// Parses a `host:port` string (see [`parse_host_port`]).
pub fn parse_host_port_str(s: &str) -> (r: Option<HostPort>)
    ensures
        (r matches Some(h) ==> s.spec_bytes() == spec_format_host_port(h)),
        r is None ==> forall|h: HostPort| s.spec_bytes() != spec_format_host_port(h),
{
    parse_host_port(s.as_bytes())
}

/// Appends the canonical decimal rendering of `n`.
pub(crate) fn push_dec(n: u16, out: &mut Vec<u8>)
    ensures
        final(out)@ == old(out)@ + dec_str(n as nat),
    decreases n,
{
    if n < 10 {
        out.push((48 + n) as u8);
        proof {
            assert(out@ =~= old(out)@ + dec_str(n as nat));
        }
    } else {
        push_dec(n / 10, out);
        out.push(48 + (n % 10) as u8);
        proof {
            assert(n as nat / 10 == (n / 10) as nat);
            assert(out@ =~= old(out)@ + dec_str(n as nat));
        }
    }
}

/// Renders an address as its canonical text `a.b.c.d:port`.
pub fn format_host_port(h: &HostPort) -> (r: Vec<u8>)
    ensures
        r@ == spec_format_host_port(*h),
{
    let mut out: Vec<u8> = Vec::new();
    push_dec(h.a as u16, &mut out);
    out.push(46);
    push_dec(h.b as u16, &mut out);
    out.push(46);
    push_dec(h.c as u16, &mut out);
    out.push(46);
    push_dec(h.d as u16, &mut out);
    out.push(58);
    push_dec(h.port, &mut out);
    proof {
        assert(out@ =~= spec_format_host_port(*h));
    }
    out
}

/// Two distinct addresses never share one canonical text, so parsing the
/// formatted text of an address gives back exactly that address.
pub proof fn lemma_host_port_text_injective(h1: HostPort, h2: HostPort)
    requires
        spec_format_host_port(h1) == spec_format_host_port(h2),
    ensures
        h1 == h2,
{
    let s = spec_format_host_port(h1);
    lemma_format_structure(s, h1);
    lemma_format_structure(s, h2);
    lemma_num_at_unique(s, 0, h1.a as nat, h2.a as nat);
    assert(dot1(h1) == dot1(h2));
    lemma_num_at_unique(s, dot1(h1) + 1, h1.b as nat, h2.b as nat);
    assert(dot2(h1) == dot2(h2));
    lemma_num_at_unique(s, dot2(h1) + 1, h1.c as nat, h2.c as nat);
    assert(dot3(h1) == dot3(h2));
    lemma_num_at_unique(s, dot3(h1) + 1, h1.d as nat, h2.d as nat);
    assert(colon_at(h1) == colon_at(h2));
    lemma_num_at_unique(s, colon_at(h1) + 1, h1.port as nat, h2.port as nat);
}

} // verus!
