use vstd::prelude::*;
use vstd::arithmetic::div_mod::{lemma_fundamental_div_mod_converse, lemma_small_mod};
use vstd::wrapping::u64_specs::wrapping_add;

verus! {

/// Whether `b` is one of the four nucleotides, in upper or lower case.
pub open spec fn is_base(b: u8) -> bool {
    b == 65u8 || b == 97u8 || b == 67u8 || b == 99u8 || b == 71u8 || b == 103u8 || b == 84u8 || b
        == 116u8
}

/// Two-bit code of a nucleotide: A = 0, C = 1, G = 2, T = 3.
pub open spec fn base_code(b: u8) -> nat {
    if b == 67u8 || b == 99u8 {
        1
    } else if b == 71u8 || b == 103u8 {
        2
    } else if b == 84u8 || b == 116u8 {
        3
    } else {
        0
    }
}

/// Returns the two-bit code of `b`, or `None` for an ambiguous base.
pub fn encode_base(b: u8) -> (r: Option<u64>)
    ensures
        r == (if is_base(b) { Some(base_code(b) as u64) } else { None::<u64> }),
{
    if b == 65u8 || b == 97u8 {
        Some(0)
    } else if b == 67u8 || b == 99u8 {
        Some(1)
    } else if b == 71u8 || b == 103u8 {
        Some(2)
    } else if b == 84u8 || b == 116u8 {
        Some(3)
    } else {
        None
    }
}


/// 4 to the power `n`.
pub open spec fn pow4(n: nat) -> nat
    decreases n,
{
    if n == 0 {
        1
    } else {
        4 * pow4((n - 1) as nat)
    }
}

/// The `k` bases starting at `i` lie inside `s` and are all unambiguous.
pub open spec fn window_ok(s: Seq<u8>, i: int, k: nat) -> bool {
    0 <= i && i + k <= s.len() && forall|j: int| i <= j < i + k ==> is_base(#[trigger] s[j])
}

/// Value of the `len` bases starting at `i`, read as a base-4 number with the first base
/// most significant.
pub open spec fn fwd_val(s: Seq<u8>, i: int, len: nat) -> nat
    decreases len,
{
    if len == 0 {
        0
    } else {
        fwd_val(s, i, (len - 1) as nat) * 4 + base_code(s[i + len - 1])
    }
}

/// Value of the reverse complement of the `len` bases starting at `i`.
pub open spec fn rc_val(s: Seq<u8>, i: int, len: nat) -> nat
    decreases len,
{
    if len == 0 {
        0
    } else {
        rc_val(s, i + 1, (len - 1) as nat) * 4 + (3 - base_code(s[i])) as nat
    }
}

/// Strand-independent value of a window: the smaller of its forward and reverse-complement values.
pub open spec fn canonical(s: Seq<u8>, i: int, k: nat) -> nat {
    let f = fwd_val(s, i, k);
    let r = rc_val(s, i, k);
    if f <= r {
        f
    } else {
        r
    }
}

/// Invertible 64-bit integer mixing function (shift-add-xor).
pub open spec fn mix64(key: u64) -> u64 {
    let k1 = wrapping_add(!key, key << 21u64);
    let k2 = k1 ^ (k1 >> 24u64);
    let k3 = wrapping_add(wrapping_add(k2, k2 << 3u64), k2 << 8u64);
    let k4 = k3 ^ (k3 >> 14u64);
    let k5 = wrapping_add(wrapping_add(k4, k4 << 2u64), k4 << 4u64);
    let k6 = k5 ^ (k5 >> 28u64);
    wrapping_add(k6, k6 << 31u64)
}

/// Hash of the window of length `k` starting at `i`.
pub open spec fn window_hash(s: Seq<u8>, i: int, k: nat) -> u64 {
    mix64(canonical(s, i, k) as u64)
}

/// The subsampling predicate: a hash is kept when it falls in the lowest `1/c` of the range.
pub open spec fn retained(h: u64, c: nat) -> bool {
    c > 0 && h <= u64::MAX as nat / c
}

/// Markers of the windows that end at or before position `n`, in order of position.
pub open spec fn markers_upto(s: Seq<u8>, c: nat, k: nat, n: nat) -> Seq<u64>
    decreases n,
{
    if n == 0 {
        Seq::empty()
    } else {
        let prev = markers_upto(s, c, k, (n - 1) as nat);
        let start = n - k;
        if n >= k && window_ok(s, start, k) && retained(window_hash(s, start, k), c) {
            prev.push(window_hash(s, start, k))
        } else {
            prev
        }
    }
}

/// Markers of the whole sequence `s` with compression factor `c` and k-mer length `k`.
pub open spec fn markers(s: Seq<u8>, c: nat, k: nat) -> Seq<u64> {
    markers_upto(s, c, k, s.len())
}

/// The largest k-mer length whose windows fit in a 64-bit word.
pub const MAX_K: usize = 32;

proof fn lemma_pow4_pos(n: nat)
    ensures
        pow4(n) >= 1,
    decreases n,
{
    if n > 0 {
        lemma_pow4_pos((n - 1) as nat);
    }
}

proof fn lemma_pow4_add(a: nat, b: nat)
    ensures
        pow4(a + b) == pow4(a) * pow4(b),
    decreases a,
{
    if a > 0 {
        lemma_pow4_add((a - 1) as nat, b);
        assert(pow4(a + b) == 4 * pow4((a - 1 + b) as nat));
        assert(pow4(a) == 4 * pow4((a - 1) as nat));
        let p = pow4((a - 1) as nat);
        let q = pow4(b);
        assert(4 * (p * q) == (4 * p) * q) by (nonlinear_arith);
    } else {
        assert(pow4(0) == 1);
        assert(pow4(a + b) == pow4(b));
    }
}

proof fn lemma_pow4_mono(a: nat, b: nat)
    requires
        a <= b,
    ensures
        pow4(a) <= pow4(b),
{
    lemma_pow4_add(a, (b - a) as nat);
    lemma_pow4_pos((b - a) as nat);
    lemma_pow4_pos(a);
    assert(pow4(a) * pow4((b - a) as nat) >= pow4(a)) by (nonlinear_arith)
        requires
            pow4((b - a) as nat) >= 1,
            pow4(a) >= 1,
    ;
}

proof fn lemma_pow4_max()
    ensures
        pow4(32) == 0x1_0000_0000_0000_0000,
{
    reveal_with_fuel(pow4, 33);
}

proof fn lemma_fwd_bound(s: Seq<u8>, i: int, len: nat)
    ensures
        fwd_val(s, i, len) < pow4(len),
    decreases len,
{
    if len > 0 {
        lemma_fwd_bound(s, i, (len - 1) as nat);
    }
}

proof fn lemma_rc_bound(s: Seq<u8>, i: int, len: nat)
    ensures
        rc_val(s, i, len) < pow4(len),
    decreases len,
{
    if len > 0 {
        lemma_rc_bound(s, i + 1, (len - 1) as nat);
    }
}

/// Splitting the first base off a forward value.
proof fn lemma_fwd_head(s: Seq<u8>, i: int, len: nat)
    requires
        len >= 1,
    ensures
        fwd_val(s, i, len) == base_code(s[i]) * pow4((len - 1) as nat) + fwd_val(
            s,
            i + 1,
            (len - 1) as nat,
        ),
    decreases len,
{
    if len > 1 {
        lemma_fwd_head(s, i, (len - 1) as nat);
        let a = base_code(s[i]);
        let p = pow4((len - 2) as nat);
        assert(pow4((len - 1) as nat) == 4 * p);
        assert(fwd_val(s, i, len) == fwd_val(s, i, (len - 1) as nat) * 4 + base_code(
            s[i + len - 1],
        ));
        assert(fwd_val(s, i + 1, (len - 1) as nat) == fwd_val(s, i + 1, (len - 2) as nat) * 4
            + base_code(s[i + len - 1]));
        assert((a * p + fwd_val(s, i + 1, (len - 2) as nat)) * 4 == a * (4 * p) + fwd_val(
            s,
            i + 1,
            (len - 2) as nat,
        ) * 4) by (nonlinear_arith);
    } else {
        assert(fwd_val(s, i, 0) == 0);
        assert(pow4(0) == 1);
    }
}

/// Appending a base to a window adds its complement in the most significant place.
proof fn lemma_rc_append(s: Seq<u8>, i: int, len: nat)
    ensures
        rc_val(s, i, len + 1) == rc_val(s, i, len) + (3 - base_code(s[i + len])) as nat * pow4(
            len,
        ),
    decreases len,
{
    if len > 0 {
        lemma_rc_append(s, i + 1, (len - 1) as nat);
        let x = (3 - base_code(s[i + len])) as nat;
        let p = pow4((len - 1) as nat);
        assert(pow4(len) == 4 * p);
        assert(rc_val(s, i, len + 1) == rc_val(s, i + 1, len) * 4 + (3 - base_code(s[i])) as nat);
        assert(rc_val(s, i, len) == rc_val(s, i + 1, (len - 1) as nat) * 4 + (3 - base_code(
            s[i],
        )) as nat);
        assert(i + 1 + (len - 1) == i + len);
        assert((rc_val(s, i + 1, (len - 1) as nat) + x * p) * 4 == rc_val(
            s,
            i + 1,
            (len - 1) as nat,
        ) * 4 + x * (4 * p)) by (nonlinear_arith);
    } else {
        assert(rc_val(s, i + 1, 0) == 0);
        assert(pow4(0) == 1);
    }
}


/// Mixes a 64-bit key into a hash value.
pub fn hash64(key: u64) -> (r: u64)
    ensures
        r == mix64(key),
{
    let k1 = (!key).wrapping_add(key << 21u64);
    let k2 = k1 ^ (k1 >> 24u64);
    let k3 = k2.wrapping_add(k2 << 3u64).wrapping_add(k2 << 8u64);
    let k4 = k3 ^ (k3 >> 14u64);
    let k5 = k4.wrapping_add(k4 << 2u64).wrapping_add(k4 << 4u64);
    let k6 = k5 ^ (k5 >> 28u64);
    k6.wrapping_add(k6 << 31u64)
}

fn pow4_u64(e: usize) -> (r: u64)
    requires
        e < MAX_K,
    ensures
        r as nat == pow4(e as nat),
{
    let mut r: u64 = 1;
    let mut i: usize = 0;
    while i < e
        invariant
            i <= e < MAX_K,
            r as nat == pow4(i as nat),
        decreases e - i,
    {
        proof {
            lemma_pow4_mono((i + 1) as nat, 31);
            lemma_pow4_add(31, 1);
            lemma_pow4_max();
            assert(pow4((i + 1) as nat) == 4 * pow4(i as nat));
            assert(pow4(1) == 4) by {
                reveal_with_fuel(pow4, 2);
            }
        }
        r = r * 4;
        i = i + 1;
    }
    r
}


/// One step of the rolling forward value: drop the oldest base once the window is full and
/// shift in base `a + m`.
proof fn lemma_roll_fwd(s: Seq<u8>, a: int, m: nat, k: nat)
    requires
        1 <= k,
        m <= k,
    ensures
        m < k ==> (fwd_val(s, a, m) % pow4((k - 1) as nat)) * 4 + base_code(s[a + m]) == fwd_val(
            s,
            a,
            m + 1,
        ),
        m == k ==> (fwd_val(s, a, m) % pow4((k - 1) as nat)) * 4 + base_code(s[a + m])
            == fwd_val(s, a + 1, k),
{
    let p = pow4((k - 1) as nat);
    lemma_pow4_pos((k - 1) as nat);
    if m < k {
        lemma_fwd_bound(s, a, m);
        lemma_pow4_mono(m, (k - 1) as nat);
        lemma_small_mod(fwd_val(s, a, m), p);
    } else {
        lemma_fwd_head(s, a, k);
        lemma_fwd_bound(s, a + 1, (k - 1) as nat);
        lemma_fundamental_div_mod_converse(
            fwd_val(s, a, k) as int,
            p as int,
            base_code(s[a]) as int,
            fwd_val(s, a + 1, (k - 1) as nat) as int,
        );
        assert(a + 1 + k - 1 == a + m);
    }
}

/// One step of the rolling reverse-complement value, kept scaled so that the window occupies
/// the top `m` places of a `k`-place number.
proof fn lemma_roll_rc(s: Seq<u8>, a: int, m: nat, k: nat)
    requires
        1 <= k,
        m <= k,
    ensures
        m < k ==> (rc_val(s, a, m) * pow4((k - m) as nat)) / 4 + (3 - base_code(s[a + m])) as nat
            * pow4((k - 1) as nat) == rc_val(s, a, m + 1) * pow4((k - m - 1) as nat),
        m == k ==> (rc_val(s, a, m) * pow4((k - m) as nat)) / 4 + (3 - base_code(s[a + m])) as nat
            * pow4((k - 1) as nat) == rc_val(s, a + 1, k),
{
    let x = (3 - base_code(s[a + m])) as nat;
    let p = pow4((k - 1) as nat);
    if m < k {
        let r = rc_val(s, a, m);
        let q = pow4((k - m - 1) as nat);
        assert(pow4((k - m) as nat) == 4 * q);
        assert(r * (4 * q) == (r * q) * 4) by (nonlinear_arith);
        lemma_fundamental_div_mod_converse((r * (4 * q)) as int, 4, (r * q) as int, 0);
        lemma_rc_append(s, a, m);
        lemma_pow4_add(m, (k - m - 1) as nat);
        assert((r + x * pow4(m)) * q == r * q + x * (pow4(m) * q)) by (nonlinear_arith);
    } else {
        assert(pow4(0) == 1);
        assert((k - m) as nat == 0);
        let z = rc_val(s, a, k);
        assert(z * 1 == z) by (nonlinear_arith);
        let t = rc_val(s, a + 1, (k - 1) as nat);
        assert(rc_val(s, a, k) == t * 4 + (3 - base_code(s[a])) as nat);
        lemma_fundamental_div_mod_converse(
            rc_val(s, a, k) as int,
            4,
            t as int,
            (3 - base_code(s[a])) as int,
        );
        lemma_rc_append(s, a + 1, (k - 1) as nat);
        assert(a + 1 + k - 1 == a + m);
    }
}


/// Appends to `out`, in order of position, the marker of every unambiguous window of length `k`
/// of `seq` whose hash passes the subsampling predicate for compression factor `c`.
///
/// The forward and reverse-complement values are rolled along the sequence, one base at a time.
pub fn extract_markers(seq: &[u8], out: &mut Vec<u64>, c: usize, k: usize)
    requires
        c >= 1,
        1 <= k <= MAX_K,
    ensures
        final(out)@ == old(out)@ + markers(seq@, c as nat, k as nat),
{
    let ghost s = seq@;
    let ghost k_n = k as nat;
    let pow = pow4_u64(k - 1);
    let threshold = u64::MAX / (c as u64);
    let mut m: usize = 0;
    let mut fwd: u64 = 0;
    let mut rev: u64 = 0;
    let mut i: usize = 0;
    proof {
        lemma_pow4_mono(k_n, 32);
        lemma_pow4_max();
        lemma_pow4_pos(k_n);
        assert(rc_val(s, 0, 0) == 0);
        assert(0 * pow4(k_n) == 0);
        assert(out@ == old(out)@ + markers_upto(s, c as nat, k_n, 0));
    }
    while i < seq.len()
        invariant
            s == seq@,
            k_n == k as nat,
            1 <= k <= MAX_K,
            c >= 1,
            threshold == u64::MAX as nat / c as nat,
            pow as nat == pow4((k - 1) as nat),
            pow4(k_n) <= 0x1_0000_0000_0000_0000,
            i <= seq.len(),
            m <= k,
            m <= i,
            forall|j: int| i - m <= j < i ==> is_base(#[trigger] s[j]),
            m < k ==> (i == m || !is_base(s[i - m - 1])),
            fwd as nat == fwd_val(s, i - m, m as nat),
            rev as nat == rc_val(s, i - m, m as nat) * pow4((k - m) as nat),
            out@ == old(out)@ + markers_upto(s, c as nat, k_n, i as nat),
        decreases seq.len() - i,
    {
        let ghost a = i - m;
        match encode_base(seq[i]) {
            None => {
                m = 0;
                fwd = 0;
                rev = 0;
                proof {
                    assert(rc_val(s, i + 1, 0) == 0);
                    assert(0 * pow4(k_n) == 0);
                }
            },
            Some(x) => {
                proof {
                    lemma_roll_fwd(s, a, m as nat, k_n);
                    lemma_roll_rc(s, a, m as nat, k_n);
                    lemma_fwd_bound(s, a, m as nat);
                    lemma_pow4_pos((k - 1) as nat);
                    lemma_pow4_add(1, (k - 1) as nat);
                    assert(pow4(1) == 4) by {
                        reveal_with_fuel(pow4, 2);
                    }
                    assert(a + m == i);
                    if m < k {
                        lemma_rc_bound(s, a, (m + 1) as nat);
                        lemma_pow4_add((m + 1) as nat, (k - m - 1) as nat);
                        let r1 = rc_val(s, a, (m + 1) as nat);
                        let q1 = pow4((k - m - 1) as nat);
                        lemma_pow4_pos((k - m - 1) as nat);
                        assert(r1 * q1 < pow4((m + 1) as nat) * q1) by (nonlinear_arith)
                            requires
                                r1 < pow4((m + 1) as nat),
                                q1 >= 1,
                        ;
                        lemma_pow4_pos((k - m - 1) as nat);
                    } else {
                        lemma_rc_bound(s, a + 1, k_n);
                    }
                    assert((fwd as nat % (pow as nat)) < pow);
                    assert((fwd as nat % (pow as nat)) * 4 + 3 < pow4(k_n));
                    assert(rev as nat / 4 + (3 - x) * (pow as nat) < pow4(k_n));
                }
                fwd = (fwd % pow) * 4 + x;
                rev = rev / 4 + (3 - x) * pow;
                if m < k {
                    m = m + 1;
                }
            },
        }
        let ghost n = (i + 1) as nat;
        if m == k {
            let canon = if fwd <= rev {
                fwd
            } else {
                rev
            };
            let h = hash64(canon);
            proof {
                assert(pow4(0) == 1);
                let z = rc_val(s, n - k_n, k_n);
                assert(z * 1 == z) by (nonlinear_arith);
                assert(rev as nat == z);
                assert(window_ok(s, n - k_n, k_n));
                assert(canon as nat == canonical(s, n - k_n, k_n));
                assert(h == window_hash(s, n - k_n, k_n));
            }
            if h <= threshold {
                out.push(h);
            }
            proof {
                assert(out@ == old(out)@ + markers_upto(s, c as nat, k_n, n));
            }
        } else {
            proof {
                if n >= k_n {
                    assert(!is_base(s[n - m - 1]));
                    assert(!window_ok(s, n - k_n, k_n));
                }
                assert(out@ == old(out)@ + markers_upto(s, c as nat, k_n, n));
            }
        }
        i = i + 1;
    }
}


/// Scalar reference for one window: the hash of the `k` bases starting at `i`, computed from
/// those bases alone, or `None` when the window leaves the sequence or holds an ambiguous base.
pub fn window_marker(seq: &[u8], i: usize, k: usize) -> (r: Option<u64>)
    requires
        1 <= k <= MAX_K,
    ensures
        r == (if window_ok(seq@, i as int, k as nat) {
            Some(window_hash(seq@, i as int, k as nat))
        } else {
            None::<u64>
        }),
{
    let ghost s = seq@;
    if i > seq.len() || k > seq.len() - i {
        return None;
    }
    proof {
        lemma_pow4_mono(k as nat, 32);
        lemma_pow4_max();
    }
    let mut fwd: u64 = 0;
    let mut j: usize = 0;
    while j < k
        invariant
            i + k <= seq.len(),
            s == seq@,
            1 <= k <= MAX_K,
            pow4(k as nat) <= 0x1_0000_0000_0000_0000,
            j <= k,
            fwd as nat == fwd_val(s, i as int, j as nat),
            forall|t: int| i <= t < i + j ==> is_base(#[trigger] s[t]),
        decreases k - j,
    {
        match encode_base(seq[i + j]) {
            None => {
                proof {
                    assert(!window_ok(s, i as int, k as nat));
                }
                return None;
            },
            Some(x) => {
                proof {
                    lemma_fwd_bound(s, i as int, (j + 1) as nat);
                    lemma_pow4_mono((j + 1) as nat, k as nat);
                }
                fwd = fwd * 4 + x;
            },
        }
        j = j + 1;
    }
    let mut rc: u64 = 0;
    let mut j: usize = k;
    while j > 0
        invariant
            i + k <= seq.len(),
            s == seq@,
            1 <= k <= MAX_K,
            pow4(k as nat) <= 0x1_0000_0000_0000_0000,
            j <= k,
            rc as nat == rc_val(s, i + j, (k - j) as nat),
            forall|t: int| i <= t < i + k ==> is_base(#[trigger] s[t]),
        decreases j,
    {
        let x = match encode_base(seq[i + j - 1]) {
            Some(x) => x,
            None => 0,
        };
        proof {
            assert(is_base(s[i + j - 1]));
            assert(rc_val(s, i + j - 1, (k - j + 1) as nat) == rc_val(s, i + j, (k - j) as nat) * 4
                + (3 - base_code(s[i + j - 1])) as nat);
            lemma_rc_bound(s, i + j - 1, (k - j + 1) as nat);
            lemma_pow4_mono((k - j + 1) as nat, k as nat);
        }
        rc = rc * 4 + (3 - x);
        j = j - 1;
    }
    let canon = if fwd <= rc {
        fwd
    } else {
        rc
    };
    Some(hash64(canon))
}

proof fn lemma_full_sampling_upto(s: Seq<u8>, k: nat, n: nat)
    requires
        1 <= k,
        n <= s.len(),
        forall|j: int| 0 <= j < s.len() ==> is_base(#[trigger] s[j]),
    ensures
        n < k ==> markers_upto(s, 1, k, n).len() == 0,
        n >= k ==> markers_upto(s, 1, k, n).len() == n - k + 1,
        forall|j: int|
            0 <= j < markers_upto(s, 1, k, n).len() ==> #[trigger] markers_upto(s, 1, k, n)[j]
                == window_hash(s, j, k),
    decreases n,
{
    if n > 0 {
        lemma_full_sampling_upto(s, k, (n - 1) as nat);
        assert(u64::MAX as nat / 1 == u64::MAX);
        if n >= k {
            assert(window_ok(s, n - k, k));
            assert(retained(window_hash(s, n - k, k), 1));
        }
    }
}

/// With compression factor 1 every window is kept: on a sequence of unambiguous bases of
/// length `L >= k` there are exactly `L - k + 1` markers, and the `j`-th is the hash of the
/// window starting at `j`, computed on its own from the window's bases.
pub proof fn lemma_full_sampling(s: Seq<u8>, k: nat)
    requires
        1 <= k <= s.len(),
        forall|j: int| 0 <= j < s.len() ==> is_base(#[trigger] s[j]),
    ensures
        markers(s, 1, k).len() == s.len() - k + 1,
        forall|j: int|
            0 <= j < markers(s, 1, k).len() ==> #[trigger] markers(s, 1, k)[j] == window_hash(
                s,
                j,
                k,
            ),
{
    lemma_full_sampling_upto(s, k, s.len());
}

} // verus!
