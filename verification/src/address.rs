use vstd::prelude::*;

use crate::errors::NodeError;
use crate::gossip::bytes_eq;

verus! {

/// The endpoint a multiaddress names: a literal IPv4 address or a DNS name
/// still to be resolved.
pub enum Host {
    Ip4(u8, u8, u8, u8),
    Dns4(Vec<u8>),
}

/// A structured, self-describing network address: an endpoint, a TCP port,
/// and optionally WebSocket framing on top — the address shapes
/// `/ip4/A.B.C.D/tcp/P`, `/dns4/NAME/tcp/P`, each with an optional `/ws`.
pub struct Multiaddr {
    pub host: Host,
    pub port: u16,
    pub ws: bool,
}

/// A byte a DNS name may hold: lower-case letters, digits, `-` and `.`.
pub open spec fn dns_byte(b: u8) -> bool {
    (97 <= b <= 122) || (48 <= b <= 57) || b == 45 || b == 46
}

impl Multiaddr {
    /// Well-formedness: a DNS name is nonempty and holds name bytes only.
    pub open spec fn wf(self) -> bool {
        match self.host {
            Host::Ip4(_, _, _, _) => true,
            Host::Dns4(name) => name@.len() > 0 && forall|k: int|
                0 <= k < name@.len() ==> dns_byte(#[trigger] name@[k]),
        }
    }

    pub open spec fn is_dns(self) -> bool {
        self.host is Dns4
    }

    /// Whether the address asks for WebSocket framing.
    pub open spec fn wants_framing(self) -> bool {
        self.ws
    }
}

/// The canonical decimal digits of `n`, most significant first.
pub open spec fn dec_rep(n: int) -> Seq<u8>
    decreases n,
{
    if n < 10 {
        seq![(n + 48) as u8]
    } else {
        dec_rep(n / 10).push((n % 10 + 48) as u8)
    }
}

/// The canonical text of an address: `/ip4/A.B.C.D` or `/dns4/NAME`, then
/// `/tcp/PORT`, then `/ws` when framed.
pub open spec fn render(a: Multiaddr) -> Seq<u8> {
    let head = match a.host {
        // "/ip4/" then the four octets separated by '.'
        Host::Ip4(o1, o2, o3, o4) => seq![47u8, 105u8, 112u8, 52u8, 47u8] + dec_rep(o1 as int)
            + seq![46u8] + dec_rep(o2 as int) + seq![46u8] + dec_rep(o3 as int) + seq![46u8]
            + dec_rep(o4 as int),
        // "/dns4/" then the name
        Host::Dns4(name) => seq![47u8, 100u8, 110u8, 115u8, 52u8, 47u8] + name@,
    };
    // "/tcp/" then the port, then "/ws" when framed
    let tail = seq![47u8, 116u8, 99u8, 112u8, 47u8] + dec_rep(a.port as int) + (if a.ws {
        seq![47u8, 119u8, 115u8]
    } else {
        Seq::<u8>::empty()
    });
    head + tail
}

pub open spec fn is_digit(b: u8) -> bool {
    48 <= b <= 57
}

/// The position after the run of decimal digits starting at `i`.
pub open spec fn digit_run_end(s: Seq<u8>, i: int) -> int
    decreases s.len() - i,
{
    if i < 0 || i >= s.len() || !is_digit(s[i]) {
        i
    } else {
        digit_run_end(s, i + 1)
    }
}

/// The value of the decimal digits `s[i..j)`.
pub open spec fn dec_value(s: Seq<u8>, i: int, j: int) -> int
    decreases j - i,
{
    if j <= i {
        0
    } else {
        dec_value(s, i, j - 1) * 10 + (s[j - 1] - 48)
    }
}

/// The position after the run of DNS-name bytes starting at `i`.
pub open spec fn name_run_end(s: Seq<u8>, i: int) -> int
    decreases s.len() - i,
{
    if i < 0 || i >= s.len() || !dns_byte(s[i]) {
        i
    } else {
        name_run_end(s, i + 1)
    }
}

/// Canonical decimal digits are digits, and there is at least one.
proof fn lemma_dec_rep_digits(n: int)
    requires
        n >= 0,
    ensures
        dec_rep(n).len() >= 1,
        forall|k: int| 0 <= k < dec_rep(n).len() ==> is_digit(#[trigger] dec_rep(n)[k]),
    decreases n,
{
    if n >= 10 {
        lemma_dec_rep_digits(n / 10);
        assert(dec_rep(n) == dec_rep(n / 10).push((n % 10 + 48) as u8));
        assert forall|k: int| 0 <= k < dec_rep(n).len() implies is_digit(
            #[trigger] dec_rep(n)[k],
        ) by {
            if k < dec_rep(n / 10).len() {
                assert(dec_rep(n)[k] == dec_rep(n / 10)[k]);
            }
        }
    }
}

/// A digit value is never negative.
proof fn lemma_dec_value_nonneg(s: Seq<u8>, i: int, j: int)
    requires
        forall|k: int| i <= k < j ==> is_digit(#[trigger] s[k]),
        0 <= i,
        j <= s.len(),
    ensures
        dec_value(s, i, j) >= 0,
    decreases j - i,
{
    if j > i {
        lemma_dec_value_nonneg(s, i, j - 1);
    }
}

/// A run of digits followed by a non-digit (or the end) is exactly what
/// `digit_run_end` walks over.
proof fn lemma_digit_run(s: Seq<u8>, i: int, j: int)
    requires
        0 <= i <= j <= s.len(),
        forall|k: int| i <= k < j ==> is_digit(#[trigger] s[k]),
        j == s.len() || !is_digit(s[j]),
    ensures
        digit_run_end(s, i) == j,
    decreases j - i,
{
    if i < j {
        lemma_digit_run(s, i + 1, j);
    }
}

/// A run of name bytes followed by a non-name byte (or the end) is exactly
/// what `name_run_end` walks over.
proof fn lemma_name_run(s: Seq<u8>, i: int, j: int)
    requires
        0 <= i <= j <= s.len(),
        forall|k: int| i <= k < j ==> dns_byte(#[trigger] s[k]),
        j == s.len() || !dns_byte(s[j]),
    ensures
        name_run_end(s, i) == j,
    decreases j - i,
{
    if i < j {
        lemma_name_run(s, i + 1, j);
    }
}

/// Where the canonical digits of `n` stand embedded at `i`, the digit value
/// of that region is `n`.
proof fn lemma_dec_value_embedded(s: Seq<u8>, i: int, n: int)
    requires
        n >= 0,
        0 <= i,
        i + dec_rep(n).len() <= s.len(),
        s.subrange(i, i + dec_rep(n).len() as int) == dec_rep(n),
    ensures
        dec_value(s, i, i + dec_rep(n).len() as int) == n,
    decreases n,
{
    let len = dec_rep(n).len() as int;
    if n < 10 {
        assert(s.subrange(i, i + 1)[0] == s[i]);
        assert(s[i] == dec_rep(n)[0]);
        assert(dec_value(s, i, i + 1) == dec_value(s, i, i) * 10 + (s[i] - 48));
    } else {
        let lp = dec_rep(n / 10).len() as int;
        assert(dec_rep(n) == dec_rep(n / 10).push((n % 10 + 48) as u8));
        assert(len == lp + 1);
        assert(s.subrange(i, i + lp) =~= dec_rep(n / 10)) by {
            assert forall|k: int| 0 <= k < lp implies s.subrange(i, i + lp)[k] == (
            #[trigger] dec_rep(n / 10)[k]) by {
                assert(s.subrange(i, i + len)[k] == s[i + k]);
                assert(dec_rep(n)[k] == dec_rep(n / 10)[k]);
            }
        }
        lemma_dec_value_embedded(s, i, n / 10);
        assert(s.subrange(i, i + len)[len - 1] == s[i + len - 1]);
        assert(s[i + len - 1] == dec_rep(n)[len - 1]);
        assert(dec_rep(n)[len - 1] == (n % 10 + 48) as u8);
        assert(dec_value(s, i, i + len) == dec_value(s, i, i + lp) * 10 + (s[i + len - 1] - 48));
    }
}

/// Append the canonical decimal digits of `n`.
fn push_dec(out: &mut Vec<u8>, n: u32)
    ensures
        final(out)@ == old(out)@ + dec_rep(n as int),
    decreases n,
{
    if n < 10 {
        out.push((n as u8) + 48);
        proof {
            assert(out@ =~= old(out)@ + dec_rep(n as int));
        }
    } else {
        push_dec(out, n / 10);
        out.push(((n % 10) as u8) + 48);
        proof {
            assert(out@ =~= old(out)@ + dec_rep(n as int));
        }
    }
}

/// Render an address as its canonical text, e.g. `/ip4/0.0.0.0/tcp/0/ws`.
pub fn render_multiaddr(a: &Multiaddr) -> (out: Vec<u8>)
    ensures
        out@ == render(*a),
{
    let mut out: Vec<u8> = Vec::new();
    match &a.host {
        Host::Ip4(o1, o2, o3, o4) => {
            out.push(47);
            out.push(105);
            out.push(112);
            out.push(52);
            out.push(47);
            push_dec(&mut out, *o1 as u32);
            out.push(46);
            push_dec(&mut out, *o2 as u32);
            out.push(46);
            push_dec(&mut out, *o3 as u32);
            out.push(46);
            push_dec(&mut out, *o4 as u32);
        },
        Host::Dns4(name) => {
            out.push(47);
            out.push(100);
            out.push(110);
            out.push(115);
            out.push(52);
            out.push(47);
            let mut k: usize = 0;
            while k < name.len()
                invariant
                    0 <= k <= name@.len(),
                    out@ == seq![47u8, 100u8, 110u8, 115u8, 52u8, 47u8] + name@.take(k as int),
                decreases name@.len() - k,
            {
                out.push(name[k]);
                proof {
                    assert(out@ =~= seq![47u8, 100u8, 110u8, 115u8, 52u8, 47u8] + name@.take(
                        k + 1 as int,
                    ));
                }
                k += 1;
            }
            proof {
                assert(name@.take(name@.len() as int) =~= name@);
            }
        },
    }
    out.push(47);
    out.push(116);
    out.push(99);
    out.push(112);
    out.push(47);
    push_dec(&mut out, a.port as u32);
    if a.ws {
        out.push(47);
        out.push(119);
        out.push(115);
    }
    proof {
        assert(out@ =~= render(*a));
    }
    out
}

/// Whether an address is well formed, decided at run time.
pub fn multiaddr_wf(a: &Multiaddr) -> (r: bool)
    ensures
        r == a.wf(),
{
    match &a.host {
        Host::Ip4(_, _, _, _) => true,
        Host::Dns4(name) => {
            if name.len() == 0 {
                proof {
                    assert(!a.wf());
                }
                return false;
            }
            let mut k: usize = 0;
            #[verifier::loop_isolation(false)]
            while k < name.len()
                invariant
                    0 <= k <= name@.len(),
                    forall|j: int| 0 <= j < k ==> dns_byte(#[trigger] name@[j]),
                decreases name@.len() - k,
            {
                let b = name[k];
                if !((97 <= b && b <= 122) || (48 <= b && b <= 57) || b == 45 || b == 46) {
                    proof {
                        assert(!dns_byte(name@[k as int]));
                        assert(!a.wf());
                    }
                    return false;
                }
                k += 1;
            }
            true
        },
    }
}

/// Scan the decimal number at `i`: its digit value (saturating above
/// `u32::MAX`) and the position after its digits.
#[verifier::loop_isolation(false)]
fn scan_dec(s: &Vec<u8>, i: usize) -> (r: (u32, usize))
    requires
        i <= s@.len(),
    ensures
        i <= r.1 <= s@.len(),
        r.1 == digit_run_end(s@, i as int),
        dec_value(s@, i as int, r.1 as int) <= u32::MAX ==> r.0 == dec_value(
            s@,
            i as int,
            r.1 as int,
        ),
{
    let mut val: u32 = 0;
    let mut j = i;
    while j < s.len() && 48 <= s[j] && s[j] <= 57
        invariant
            i <= j <= s@.len(),
            digit_run_end(s@, i as int) == digit_run_end(s@, j as int),
            forall|k: int| i <= k < j ==> is_digit(#[trigger] s@[k]),
            dec_value(s@, i as int, j as int) <= u32::MAX ==> val == dec_value(
                s@,
                i as int,
                j as int,
            ),
            dec_value(s@, i as int, j as int) > u32::MAX ==> val == u32::MAX,
        decreases s@.len() - j,
    {
        let d = (s[j] - 48) as u32;
        proof {
            lemma_dec_value_nonneg(s@, i as int, j as int);
            assert(dec_value(s@, i as int, j + 1 as int) == dec_value(s@, i as int, j as int) * 10
                + (s@[j as int] - 48));
        }
        if val <= (u32::MAX - d) / 10 {
            val = val * 10 + d;
        } else {
            proof {
                let dv = dec_value(s@, i as int, j as int);
                if dv <= u32::MAX {
                    assert(val == dv);
                    assert(val as int > (u32::MAX as int - d) / 10);
                    assert(val as int * 10 + d > u32::MAX as int) by {
                        let q = (u32::MAX as int - d) / 10;
                        assert(u32::MAX as int - d == q * 10 + (u32::MAX as int - d) % 10);
                        assert((u32::MAX as int - d) % 10 < 10);
                        assert(val as int >= q + 1);
                    }
                }
            }
            val = u32::MAX;
        }
        j += 1;
    }
    proof {
        assert(digit_run_end(s@, j as int) == j as int);
    }
    (val, j)
}

/// Scan the run of DNS-name bytes at `i`: the position after them.
#[verifier::loop_isolation(false)]
fn scan_name(s: &Vec<u8>, i: usize) -> (r: usize)
    requires
        i <= s@.len(),
    ensures
        i <= r <= s@.len(),
        r == name_run_end(s@, i as int),
        forall|k: int| i <= k < r ==> dns_byte(#[trigger] s@[k]),
{
    let mut j = i;
    while j < s.len() && ((97 <= s[j] && s[j] <= 122) || (48 <= s[j] && s[j] <= 57) || s[j] == 45
        || s[j] == 46)
        invariant
            i <= j <= s@.len(),
            name_run_end(s@, i as int) == name_run_end(s@, j as int),
            forall|k: int| i <= k < j ==> dns_byte(#[trigger] s@[k]),
        decreases s@.len() - j,
    {
        j += 1;
    }
    proof {
        assert(name_run_end(s@, j as int) == j as int);
    }
    j
}

/// Whether the literal `/tcp/` stands at `i`.
fn tcp_tag_at(s: &Vec<u8>, i: usize) -> (r: bool)
    requires
        i <= s@.len(),
    ensures
        r == (i + 5 <= s@.len() && s@[i as int] == 47 && s@[i as int + 1] == 116 && s@[i as int
            + 2] == 99 && s@[i as int + 3] == 112 && s@[i as int + 4] == 47),
{
    s.len() - i >= 5 && s[i] == 47 && s[i + 1] == 116 && s[i + 2] == 99 && s[i + 3] == 112 && s[i
        + 4] == 47
}

/// What the canonical text of a literal address looks like: the scanner's
/// own observables (digit runs, their values, the separators) pinned for
/// any well-formed address that renders to `s`.
proof fn lemma_render_ip4_shape(a: Multiaddr, s: Seq<u8>)
    requires
        a.host is Ip4,
        render(a) == s,
    ensures
        s.len() >= 5 && s[0] == 47 && s[1] == 105 && s[2] == 112 && s[3] == 52 && s[4] == 47,
        ({
            let e1 = digit_run_end(s, 5);
            let e2 = digit_run_end(s, e1 + 1);
            let e3 = digit_run_end(s, e2 + 1);
            let e4 = digit_run_end(s, e3 + 1);
            let ep = digit_run_end(s, e4 + 5);
            &&& e1 < s.len() && s[e1] == 46
            &&& e2 < s.len() && s[e2] == 46
            &&& e3 < s.len() && s[e3] == 46
            &&& 0 <= dec_value(s, 5, e1) <= 255
            &&& 0 <= dec_value(s, e1 + 1, e2) <= 255
            &&& 0 <= dec_value(s, e2 + 1, e3) <= 255
            &&& 0 <= dec_value(s, e3 + 1, e4) <= 255
            &&& e4 + 5 <= s.len() && s[e4] == 47 && s[e4 + 1] == 116 && s[e4 + 2] == 99 && s[e4
                + 3] == 112 && s[e4 + 4] == 47
            &&& 0 <= dec_value(s, e4 + 5, ep) <= 65535
            &&& (s.len() == ep || (s.len() == ep + 3 && s[ep] == 47 && s[ep + 1] == 119 && s[ep
                + 2] == 115))
            &&& a == (Multiaddr {
                host: Host::Ip4(
                    dec_value(s, 5, e1) as u8,
                    dec_value(s, e1 + 1, e2) as u8,
                    dec_value(s, e2 + 1, e3) as u8,
                    dec_value(s, e3 + 1, e4) as u8,
                ),
                port: dec_value(s, e4 + 5, ep) as u16,
                ws: s.len() != ep,
            })
        }),
{
    let o1 = a.host->Ip4_0 as int;
    let o2 = a.host->Ip4_1 as int;
    let o3 = a.host->Ip4_2 as int;
    let o4 = a.host->Ip4_3 as int;
    let d1 = dec_rep(o1);
    let d2 = dec_rep(o2);
    let d3 = dec_rep(o3);
    let d4 = dec_rep(o4);
    let l1 = d1.len() as int;
    let l2 = d2.len() as int;
    let l3 = d3.len() as int;
    let l4 = d4.len() as int;
    lemma_dec_rep_digits(o1);
    lemma_dec_rep_digits(o2);
    lemma_dec_rep_digits(o3);
    lemma_dec_rep_digits(o4);
    let p5 = seq![47u8, 105u8, 112u8, 52u8, 47u8];
    let t5 = seq![47u8, 116u8, 99u8, 112u8, 47u8];
    let dp = dec_rep(a.port as int);
    let lp = dp.len() as int;
    lemma_dec_rep_digits(a.port as int);
    let w: Seq<u8> = if a.ws {
        seq![47u8, 119u8, 115u8]
    } else {
        Seq::<u8>::empty()
    };
    let head = p5 + d1 + seq![46u8] + d2 + seq![46u8] + d3 + seq![46u8] + d4;
    assert(s == head + (t5 + dp + w));
    let c1 = 5 + l1;
    let b2 = c1 + 1;
    let c2 = b2 + l2;
    let b3 = c2 + 1;
    let c3 = b3 + l3;
    let b4 = c3 + 1;
    let c4 = b4 + l4;
    let bp = c4 + 5;
    let cp = bp + lp;
    assert(head.len() == c4);
    assert(s.len() == cp + w.len());
    assert forall|k: int| 0 <= k < l1 implies s[5 + k] == d1[k] by {}
    assert forall|k: int| 0 <= k < l2 implies s[b2 + k] == d2[k] by {}
    assert forall|k: int| 0 <= k < l3 implies s[b3 + k] == d3[k] by {}
    assert forall|k: int| 0 <= k < l4 implies s[b4 + k] == d4[k] by {}
    assert forall|k: int| 0 <= k < lp implies s[bp + k] == dp[k] by {}
    assert(s[c1] == 46 && s[c2] == 46 && s[c3] == 46);
    assert(s[c4] == 47 && s[c4 + 1] == 116 && s[c4 + 2] == 99 && s[c4 + 3] == 112 && s[c4 + 4]
        == 47);
    if a.ws {
        assert(s[cp] == 47 && s[cp + 1] == 119 && s[cp + 2] == 115);
    }
    assert(s.subrange(5, c1) =~= d1);
    assert(s.subrange(b2, c2) =~= d2);
    assert(s.subrange(b3, c3) =~= d3);
    assert(s.subrange(b4, c4) =~= d4);
    assert(s.subrange(bp, cp) =~= dp);
    lemma_dec_value_embedded(s, 5, o1);
    lemma_dec_value_embedded(s, b2, o2);
    lemma_dec_value_embedded(s, b3, o3);
    lemma_dec_value_embedded(s, b4, o4);
    lemma_dec_value_embedded(s, bp, a.port as int);
    lemma_digit_run(s, 5, c1);
    lemma_digit_run(s, b2, c2);
    lemma_digit_run(s, b3, c3);
    lemma_digit_run(s, b4, c4);
    if a.ws {
        lemma_digit_run(s, bp, cp);
    } else {
        lemma_digit_run(s, bp, cp);
    }
    assert(a == (Multiaddr {
        host: Host::Ip4(
            dec_value(s, 5, c1) as u8,
            dec_value(s, b2, c2) as u8,
            dec_value(s, b3, c3) as u8,
            dec_value(s, b4, c4) as u8,
        ),
        port: dec_value(s, bp, cp) as u16,
        ws: s.len() != cp,
    }));
}

/// What the canonical text of a name address looks like, pinned the same
/// way for the scanner.
proof fn lemma_render_dns_shape(a: Multiaddr, s: Seq<u8>)
    requires
        a.wf(),
        a.host is Dns4,
        render(a) == s,
    ensures
        s.len() >= 6 && s[0] == 47 && s[1] == 100 && s[2] == 110 && s[3] == 115 && s[4] == 52
            && s[5] == 47,
        ({
            let ne = name_run_end(s, 6);
            let ep = digit_run_end(s, ne + 5);
            &&& ne > 6
            &&& ne + 5 <= s.len() && s[ne] == 47 && s[ne + 1] == 116 && s[ne + 2] == 99 && s[ne
                + 3] == 112 && s[ne + 4] == 47
            &&& 0 <= dec_value(s, ne + 5, ep) <= 65535
            &&& (s.len() == ep || (s.len() == ep + 3 && s[ep] == 47 && s[ep + 1] == 119 && s[ep
                + 2] == 115))
            &&& (forall|k: int| 6 <= k < ne ==> dns_byte(#[trigger] s[k]))
            &&& (a.host matches Host::Dns4(name) && name@ == s.subrange(6, ne))
            &&& a.port == dec_value(s, ne + 5, ep)
            &&& a.ws == (s.len() != ep)
        }),
{
    let nm = (a.host->Dns4_0)@;
    let ln = nm.len() as int;
    let p6 = seq![47u8, 100u8, 110u8, 115u8, 52u8, 47u8];
    let t5 = seq![47u8, 116u8, 99u8, 112u8, 47u8];
    let dp = dec_rep(a.port as int);
    let lp = dp.len() as int;
    lemma_dec_rep_digits(a.port as int);
    let w: Seq<u8> = if a.ws {
        seq![47u8, 119u8, 115u8]
    } else {
        Seq::<u8>::empty()
    };
    let head = p6 + nm;
    assert(s == head + (t5 + dp + w));
    let ce = 6 + ln;
    let bp = ce + 5;
    let cp = bp + lp;
    assert(head.len() == ce);
    assert(s.len() == cp + w.len());
    assert forall|k: int| 0 <= k < ln implies s[6 + k] == nm[k] by {}
    assert forall|k: int| 0 <= k < lp implies s[bp + k] == dp[k] by {}
    assert forall|k: int| 6 <= k < ce implies dns_byte(#[trigger] s[k]) by {
        assert(s[k] == nm[k - 6]);
    }
    assert(s[ce] == 47 && s[ce + 1] == 116 && s[ce + 2] == 99 && s[ce + 3] == 112 && s[ce + 4]
        == 47);
    if a.ws {
        assert(s[cp] == 47 && s[cp + 1] == 119 && s[cp + 2] == 115);
    }
    assert(!dns_byte(47));
    lemma_name_run(s, 6, ce);
    assert(s.subrange(bp, cp) =~= dp);
    lemma_dec_value_embedded(s, bp, a.port as int);
    lemma_digit_run(s, bp, cp);
    assert(s.subrange(6, ce) =~= nm);
}

/// Whether some well-formed address has `s` as its canonical text.
pub open spec fn is_address_text(s: Seq<u8>) -> bool {
    exists|a: Multiaddr| a.wf() && render(a) == s
}

/// Scan the text for the shape of an address. The caller re-renders the
/// candidate and compares, which carries soundness; what is proved here is
/// completeness: on the canonical text of any well-formed address the scan
/// succeeds, with a candidate that renders back to the text.
#[verifier::loop_isolation(false)]
fn scan_multiaddr(s: &Vec<u8>) -> (r: Option<Multiaddr>)
    ensures
        is_address_text(s@) ==> match r {
            Some(a2) => a2.wf() && render(a2) == s@,
            None => false,
        },
{
    if s.len() < 5 || s[0] != 47 {
        proof {
            if is_address_text(s@) {
                let a = choose|a: Multiaddr| a.wf() && render(a) == s@;
                if a.host is Ip4 {
                    lemma_render_ip4_shape(a, s@);
                } else {
                    lemma_render_dns_shape(a, s@);
                }
            }
        }
        return None;
    }
    if s[1] == 105 && s[2] == 112 && s[3] == 52 && s[4] == 47 {
        // "/ip4/"
        let (o1, j1) = scan_dec(s, 5);
        if j1 >= s.len() || s[j1] != 46 || o1 > 255 {
            proof {
                if is_address_text(s@) {
                    let a = choose|a: Multiaddr| a.wf() && render(a) == s@;
                    if a.host is Dns4 {
                        lemma_render_dns_shape(a, s@);
                    } else {
                        lemma_render_ip4_shape(a, s@);
                    }
                }
            }
            return None;
        }
        let (o2, j2) = scan_dec(s, j1 + 1);
        if j2 >= s.len() || s[j2] != 46 || o2 > 255 {
            proof {
                if is_address_text(s@) {
                    let a = choose|a: Multiaddr| a.wf() && render(a) == s@;
                    if a.host is Dns4 {
                        lemma_render_dns_shape(a, s@);
                    } else {
                        lemma_render_ip4_shape(a, s@);
                    }
                }
            }
            return None;
        }
        let (o3, j3) = scan_dec(s, j2 + 1);
        if j3 >= s.len() || s[j3] != 46 || o3 > 255 {
            proof {
                if is_address_text(s@) {
                    let a = choose|a: Multiaddr| a.wf() && render(a) == s@;
                    if a.host is Dns4 {
                        lemma_render_dns_shape(a, s@);
                    } else {
                        lemma_render_ip4_shape(a, s@);
                    }
                }
            }
            return None;
        }
        let (o4, j4) = scan_dec(s, j3 + 1);
        if o4 > 255 {
            proof {
                if is_address_text(s@) {
                    let a = choose|a: Multiaddr| a.wf() && render(a) == s@;
                    if a.host is Dns4 {
                        lemma_render_dns_shape(a, s@);
                    } else {
                        lemma_render_ip4_shape(a, s@);
                    }
                }
            }
            return None;
        }
        if !tcp_tag_at(s, j4) {
            proof {
                if is_address_text(s@) {
                    let a = choose|a: Multiaddr| a.wf() && render(a) == s@;
                    if a.host is Dns4 {
                        lemma_render_dns_shape(a, s@);
                    } else {
                        lemma_render_ip4_shape(a, s@);
                    }
                }
            }
            return None;
        }
        let (port, j) = scan_dec(s, j4 + 5);
        if port > 65535 {
            proof {
                if is_address_text(s@) {
                    let a = choose|a: Multiaddr| a.wf() && render(a) == s@;
                    if a.host is Dns4 {
                        lemma_render_dns_shape(a, s@);
                    } else {
                        lemma_render_ip4_shape(a, s@);
                    }
                }
            }
            return None;
        }
        let ws: bool;
        if j == s.len() {
            ws = false;
        } else if s.len() - j == 3 && s[j] == 47 && s[j + 1] == 119 && s[j + 2] == 115 {
            ws = true;
        } else {
            proof {
                if is_address_text(s@) {
                    let a = choose|a: Multiaddr| a.wf() && render(a) == s@;
                    if a.host is Dns4 {
                        lemma_render_dns_shape(a, s@);
                    } else {
                        lemma_render_ip4_shape(a, s@);
                    }
                }
            }
            return None;
        }
        let cand = Multiaddr {
            host: Host::Ip4(o1 as u8, o2 as u8, o3 as u8, o4 as u8),
            port: port as u16,
            ws,
        };
        proof {
            if is_address_text(s@) {
                let a = choose|a: Multiaddr| a.wf() && render(a) == s@;
                if a.host is Dns4 {
                    lemma_render_dns_shape(a, s@);
                } else {
                    lemma_render_ip4_shape(a, s@);
                    assert(cand == a);
                }
            }
        }
        return Some(cand);
    }
    if s.len() >= 6 && s[1] == 100 && s[2] == 110 && s[3] == 115 && s[4] == 52 && s[5] == 47 {
        // "/dns4/"
        let j = scan_name(s, 6);
        if j == 6 {
            proof {
                if is_address_text(s@) {
                    let a = choose|a: Multiaddr| a.wf() && render(a) == s@;
                    if a.host is Ip4 {
                        lemma_render_ip4_shape(a, s@);
                    } else {
                        lemma_render_dns_shape(a, s@);
                    }
                }
            }
            return None;
        }
        let mut name: Vec<u8> = Vec::new();
        let mut k: usize = 6;
        while k < j
            invariant
                6 <= k <= j <= s@.len(),
                name@ == s@.subrange(6, k as int),
            decreases j - k,
        {
            name.push(s[k]);
            proof {
                assert(name@ =~= s@.subrange(6, k + 1 as int));
            }
            k += 1;
        }
        if !tcp_tag_at(s, j) {
            proof {
                if is_address_text(s@) {
                    let a = choose|a: Multiaddr| a.wf() && render(a) == s@;
                    if a.host is Ip4 {
                        lemma_render_ip4_shape(a, s@);
                    } else {
                        lemma_render_dns_shape(a, s@);
                    }
                }
            }
            return None;
        }
        let (port, jp) = scan_dec(s, j + 5);
        if port > 65535 {
            proof {
                if is_address_text(s@) {
                    let a = choose|a: Multiaddr| a.wf() && render(a) == s@;
                    if a.host is Ip4 {
                        lemma_render_ip4_shape(a, s@);
                    } else {
                        lemma_render_dns_shape(a, s@);
                    }
                }
            }
            return None;
        }
        let ws: bool;
        if jp == s.len() {
            ws = false;
        } else if s.len() - jp == 3 && s[jp] == 47 && s[jp + 1] == 119 && s[jp + 2] == 115 {
            ws = true;
        } else {
            proof {
                if is_address_text(s@) {
                    let a = choose|a: Multiaddr| a.wf() && render(a) == s@;
                    if a.host is Ip4 {
                        lemma_render_ip4_shape(a, s@);
                    } else {
                        lemma_render_dns_shape(a, s@);
                    }
                }
            }
            return None;
        }
        let cand = Multiaddr { host: Host::Dns4(name), port: port as u16, ws };
        proof {
            if is_address_text(s@) {
                let a = choose|a: Multiaddr| a.wf() && render(a) == s@;
                if a.host is Ip4 {
                    lemma_render_ip4_shape(a, s@);
                } else {
                    lemma_render_dns_shape(a, s@);
                    assert(cand.wf());
                    assert(render(cand) == s@) by {
                        assert(cand.host->Dns4_0@ == a.host->Dns4_0@);
                        assert(render(cand) == render(a));
                    }
                }
            }
        }
        return Some(cand);
    }
    proof {
        if is_address_text(s@) {
            let a = choose|a: Multiaddr| a.wf() && render(a) == s@;
            if a.host is Ip4 {
                lemma_render_ip4_shape(a, s@);
            } else {
                lemma_render_dns_shape(a, s@);
            }
        }
    }
    None
}

/// Parse a dial target. The accepted texts are precisely the canonical
/// address texts: a returned address is well formed and renders back to
/// exactly the input, and the parse fails only on a string that no
/// well-formed address renders to. That failure is the recoverable
/// `AddressParse` error: the caller reports it and carries on.
pub fn parse_multiaddr(s: &Vec<u8>) -> (r: Result<Multiaddr, NodeError>)
    ensures
        match r {
            Ok(a) => a.wf() && render(a) == s@,
            Err(e) => e == NodeError::AddressParse && !is_address_text(s@),
        },
{
    match scan_multiaddr(s) {
        Some(a) => {
            if multiaddr_wf(&a) {
                let text = render_multiaddr(&a);
                if bytes_eq(&text, s) {
                    Ok(a)
                } else {
                    proof {
                        assert(!is_address_text(s@));
                    }
                    Err(NodeError::AddressParse)
                }
            } else {
                proof {
                    assert(!is_address_text(s@));
                }
                Err(NodeError::AddressParse)
            }
        },
        None => Err(NodeError::AddressParse),
    }
}

} // verus!
