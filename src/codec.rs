//! The bit codec: loads and stores of 1 to 64 bits at any bit offset.
use vstd::prelude::*;
use vstd::arithmetic::div_mod::{
    lemma_breakdown, lemma_div_denominator, lemma_div_multiples_vanish_fancy,
    lemma_fundamental_div_mod, lemma_mod_multiples_vanish, lemma_div_pos_is_pos,
    lemma_mod_pos_bound, lemma_small_mod,
};
use vstd::arithmetic::power2::{
    pow2, lemma_pow2_pos, lemma_pow2_adds, lemma_pow2_unfold, lemma2_to64,
    lemma_pow2_strictly_increases,
};

verus! {

/// The number whose base-256 digits, least significant first, are `bytes`.
pub open spec fn le_value(bytes: Seq<u8>) -> nat
    decreases bytes.len(),
{
    if bytes.len() == 0 {
        0
    } else {
        le_value(bytes.drop_last()) + bytes.last() as nat * pow2((8 * (bytes.len() - 1)) as nat)
    }
}

/// The `len` bits of `x` that start at bit `off`, as a number.
pub open spec fn bits_of(x: nat, off: nat, len: nat) -> nat {
    (x / pow2(off)) % pow2(len)
}

/// Whether bit `i` of `x` is set.
pub open spec fn bit(x: nat, i: nat) -> bool {
    (x / pow2(i)) % 2 == 1
}

/// `x` with its bits `off .. off + len` replaced by the low `len` bits of `v`.
pub open spec fn splice(x: nat, off: nat, len: nat, v: nat) -> nat {
    x % pow2(off) + (v % pow2(len)) * pow2(off) + (x / pow2(off + len)) * pow2(off + len)
}

/// The `n` base-256 digits of `x`, least significant first.
pub open spec fn le_bytes(x: nat, n: nat) -> Seq<u8> {
    Seq::new(n, |j: int| ((x / pow2((8 * j) as nat)) % 256) as u8)
}

/// The field of `len` bits at bit offset `off` of `data`.
pub open spec fn field_value(data: Seq<u8>, off: nat, len: nat) -> nat {
    bits_of(le_value(data), off, len)
}

/// `data` after the low `len` bits of `v` were written at bit offset `off`.
pub open spec fn stored(data: Seq<u8>, off: nat, len: nat, v: nat) -> Seq<u8> {
    le_bytes(splice(le_value(data), off, len, v), data.len())
}

/// Whether an access of `len` bits at `off` stays inside a buffer of `n` bytes.
pub open spec fn fits(off: nat, len: nat, n: nat) -> bool {
    off + len <= 8 * n
}

proof fn lemma_pow2_256()
    ensures
        pow2(8) == 256,
{
    lemma2_to64();
}

proof fn lemma_le_bound(s: Seq<u8>)
    ensures
        le_value(s) < pow2((8 * s.len()) as nat),
    decreases s.len(),
{
    lemma_pow2_pos((8 * s.len()) as nat);
    if s.len() > 0 {
        let k = (8 * (s.len() - 1)) as nat;
        lemma_le_bound(s.drop_last());
        lemma_pow2_adds(k, 8);
        lemma_pow2_256();
        assert((8 * s.len()) as nat == k + 8);
        let p = pow2(k);
        let b = s.last() as nat;
        assert(b * p <= 255 * p) by (nonlinear_arith)
            requires
                b <= 255,
        ;
    }
}

proof fn lemma_le_split(s: Seq<u8>, k: int)
    requires
        0 <= k <= s.len(),
    ensures
        le_value(s) == le_value(s.subrange(0, k)) + pow2((8 * k) as nat) * le_value(
            s.subrange(k, s.len() as int),
        ),
    decreases s.len(),
{
    let n = s.len() as int;
    if k == n {
        assert(s.subrange(0, k) =~= s);
        assert(s.subrange(k, n).len() == 0);
        assert(le_value(s.subrange(k, n)) == 0);
        assert(pow2((8 * k) as nat) * 0 == 0);
    } else {
        let s1 = s.drop_last();
        lemma_le_split(s1, k);
        assert(s1.subrange(0, k) =~= s.subrange(0, k));
        let t = s.subrange(k, n);
        let t1 = s1.subrange(k, n - 1);
        assert(t.drop_last() =~= t1);
        let p = pow2((8 * k) as nat);
        let q = pow2((8 * (n - 1 - k)) as nat);
        let b = s.last() as nat;
        lemma_pow2_adds((8 * k) as nat, (8 * (n - 1 - k)) as nat);
        assert((8 * k) as nat + (8 * (n - 1 - k)) as nat == (8 * (n - 1)) as nat);
        assert(t.last() == s.last());
        assert(t.len() - 1 == n - 1 - k);
        assert(le_value(t) == le_value(t1) + b * q);
        assert(le_value(s) == le_value(s1) + b * pow2((8 * (n - 1)) as nat));
        assert(p * q == pow2((8 * (n - 1)) as nat));
        assert(le_value(s1) == le_value(s.subrange(0, k)) + p * le_value(t1));
        let big = pow2((8 * (n - 1)) as nat);
        assert(le_value(s) == le_value(s.subrange(0, k)) + p * le_value(t)) by (nonlinear_arith)
            requires
                le_value(s) == le_value(s1) + b * big,
                le_value(s1) == le_value(s.subrange(0, k)) + p * le_value(t1),
                le_value(t) == le_value(t1) + b * q,
                p * q == big,
        ;
    }
}

/// A window of `n` bytes at `b` splits the buffer into three numbers.
proof fn lemma_le_window(data: Seq<u8>, b: int, n: int)
    requires
        0 <= b,
        0 <= n,
        b + n <= data.len(),
    ensures
        le_value(data) == le_value(data.subrange(0, b)) + pow2((8 * b) as nat) * (le_value(
            data.subrange(b, b + n),
        ) + pow2((8 * n) as nat) * le_value(data.subrange(b + n, data.len() as int))),
        le_value(data.subrange(0, b)) < pow2((8 * b) as nat),
{
    let len = data.len() as int;
    lemma_le_split(data, b);
    let rest = data.subrange(b, len);
    lemma_le_split(rest, n);
    assert(rest.subrange(0, n) =~= data.subrange(b, b + n));
    assert(rest.subrange(n, rest.len() as int) =~= data.subrange(b + n, len));
    lemma_le_bound(data.subrange(0, b));
}

/// Byte `j` of a buffer is digit `j` of its number.
proof fn lemma_le_digit(s: Seq<u8>, j: int)
    requires
        0 <= j < s.len(),
    ensures
        s[j] as nat == (le_value(s) / pow2((8 * j) as nat)) % 256,
{
    let n = s.len() as int;
    lemma_le_window(s, j, 1);
    let lo = le_value(s.subrange(0, j));
    let mid = le_value(s.subrange(j, j + 1));
    let hi = le_value(s.subrange(j + 1, n));
    let p = pow2((8 * j) as nat);
    lemma_pow2_256();
    lemma_le_single(s.subrange(j, j + 1));
    lemma_pow2_pos((8 * j) as nat);
    assert(le_value(s) == p * (mid + 256 * hi) + lo) by (nonlinear_arith)
        requires
            le_value(s) == lo + p * (mid + 256 * hi),
    ;
    lemma_div_multiples_vanish_fancy((mid + 256 * hi) as int, lo as int, p as int);
    assert(le_value(s) / p == mid + 256 * hi);
    assert((256 * hi + mid) % 256 == mid % 256) by {
        lemma_mod_multiples_vanish(hi as int, mid as int, 256);
    }
}

proof fn lemma_le_single(one: Seq<u8>)
    requires
        one.len() == 1,
    ensures
        le_value(one) == one[0] as nat,
{
    assert(one.drop_last().len() == 0);
    assert(le_value(one.drop_last()) == 0);
    lemma2_to64();
    assert(le_value(one) == le_value(one.drop_last()) + one.last() as nat * pow2(0));
}

/// A buffer is the digits of its own number.
proof fn lemma_le_bytes_of_value(s: Seq<u8>, x: nat)
    requires
        le_value(s) == x,
    ensures
        s == le_bytes(x, s.len()),
{
    assert forall|j: int| 0 <= j < s.len() implies s[j] == le_bytes(x, s.len())[j] by {
        lemma_le_digit(s, j);
    }
    assert(s =~= le_bytes(x, s.len()));
}

/// Bits below the window's first byte do not change what lies above them.
proof fn lemma_low_part(lo: nat, y: nat, a: nat, s: nat, len: nat, v: nat)
    requires
        lo < pow2(a),
    ensures
        bits_of(lo + pow2(a) * y, a + s, len) == bits_of(y, s, len),
        splice(lo + pow2(a) * y, a + s, len, v) == lo + pow2(a) * splice(y, s, len, v),
{
    let x = lo + pow2(a) * y;
    let pa = pow2(a);
    let ps = pow2(s);
    let pr = pow2(s + len);
    lemma_pow2_pos(a);
    lemma_pow2_pos(s);
    lemma_pow2_pos(s + len);
    lemma_pow2_adds(a, s);
    lemma_pow2_adds(a, s + len);
    assert(a + (s + len) == (a + s) + len);
    lemma_div_multiples_vanish_fancy(y as int, lo as int, pa as int);
    assert(x / pa == y);
    lemma_div_denominator(x as int, pa as int, ps as int);
    lemma_div_denominator(x as int, pa as int, pr as int);
    assert(x / pow2(a + s) == y / ps);
    assert(x / pow2(a + s + len) == y / pr);
    lemma_breakdown(x as int, pa as int, ps as int);
    lemma_mod_multiples_vanish(y as int, lo as int, pa as int);
    lemma_mod_multiples_vanish(0, lo as int, pa as int);
    assert(lo % pa == lo) by {
        lemma_small_mod(lo, pa);
    }
    assert(x % pow2(a + s) == pa * (y % ps) + lo);
    let vm = v % pow2(len);
    assert(splice(x, a + s, len, v) == pa * (y % ps) + lo + vm * (pa * ps) + (y / pr) * (pa
        * pr));
    let sy = splice(y, s, len, v);
    let sx = splice(x, a + s, len, v);
    let y1 = y % ps;
    let y2 = y / pr;
    assert(sy == y1 + vm * ps + y2 * pr);
    assert(sx == lo + pa * sy) by (nonlinear_arith)
        requires
            sx == pa * y1 + lo + vm * (pa * ps) + y2 * (pa * pr),
            sy == y1 + vm * ps + y2 * pr,
    ;
}

/// Bits above the window's last byte do not change what lies below them.
proof fn lemma_high_part(w: nat, h: nat, m: nat, s: nat, len: nat, v: nat)
    requires
        s + len <= m,
    ensures
        bits_of(w + pow2(m) * h, s, len) == bits_of(w, s, len),
        splice(w + pow2(m) * h, s, len, v) == splice(w, s, len, v) + pow2(m) * h,
{
    let x = w + pow2(m) * h;
    let ps = pow2(s);
    let pl = pow2(len);
    let pr = pow2(s + len);
    let k1 = pow2((m - s) as nat);
    let k2 = pow2((m - s - len) as nat);
    lemma_pow2_pos(s);
    lemma_pow2_pos(len);
    lemma_pow2_pos(s + len);
    lemma_pow2_adds(s, (m - s) as nat);
    lemma_pow2_adds(s + len, (m - s - len) as nat);
    lemma_pow2_adds(len, (m - s - len) as nat);
    assert(s + (m - s) as nat == m);
    assert(s + len + (m - s - len) as nat == m);
    assert((m - s) as nat == len + (m - s - len) as nat);
    // Above bit s: the quotient gains k1 * h.
    lemma_fundamental_div_mod(w as int, ps as int);
    lemma_mod_pos_bound(w as int, ps as int);
    assert(x == ps * (w / ps + k1 * h) + w % ps) by (nonlinear_arith)
        requires
            x == w + pow2(m) * h,
            pow2(m) == ps * k1,
            w == ps * (w / ps) + w % ps,
    ;
    lemma_div_multiples_vanish_fancy((w / ps + k1 * h) as int, (w % ps) as int, ps as int);
    assert(x / ps == w / ps + k1 * h);
    assert(k1 * h == pl * (k2 * h)) by (nonlinear_arith)
        requires
            k1 == pl * k2,
    ;
    lemma_mod_multiples_vanish((k2 * h) as int, (w / ps) as int, pl as int);
    // Below bit s: nothing changes.
    assert(x == ps * (k1 * h) + w) by (nonlinear_arith)
        requires
            x == w + pow2(m) * h,
            pow2(m) == ps * k1,
    ;
    lemma_mod_multiples_vanish((k1 * h) as int, w as int, ps as int);
    // Above bit s + len: the quotient gains k2 * h.
    lemma_fundamental_div_mod(w as int, pr as int);
    lemma_mod_pos_bound(w as int, pr as int);
    assert(x == pr * (w / pr + k2 * h) + w % pr) by (nonlinear_arith)
        requires
            x == w + pow2(m) * h,
            pow2(m) == pr * k2,
            w == pr * (w / pr) + w % pr,
    ;
    lemma_div_multiples_vanish_fancy((w / pr + k2 * h) as int, (w % pr) as int, pr as int);
    assert(x / pr == w / pr + k2 * h);
    assert((w / pr + k2 * h) * pr == (w / pr) * pr + pow2(m) * h) by (nonlinear_arith)
        requires
            pow2(m) == pr * k2,
    ;
}

/// Splicing a field into a number of `m` bits keeps it under `m` bits.
proof fn lemma_splice_bound(w: nat, s: nat, len: nat, m: nat, v: nat)
    requires
        w < pow2(m),
        s + len <= m,
    ensures
        splice(w, s, len, v) < pow2(m),
{
    let ps = pow2(s);
    let pl = pow2(len);
    let pr = pow2(s + len);
    let k2 = pow2((m - s - len) as nat);
    lemma_pow2_pos(s);
    lemma_pow2_pos(len);
    lemma_pow2_pos(s + len);
    lemma_pow2_adds(s, len);
    lemma_pow2_adds(s + len, (m - s - len) as nat);
    assert(s + len + (m - s - len) as nat == m);
    lemma_mod_pos_bound(w as int, ps as int);
    lemma_mod_pos_bound(v as int, pl as int);
    let vm = v % pl;
    let q = w / pr;
    // w < pr * k2 gives q < k2
    lemma_fundamental_div_mod(w as int, pr as int);
    lemma_mod_pos_bound(w as int, pr as int);
    assert(q < k2) by (nonlinear_arith)
        requires
            w == pr * q + w % pr,
            w % pr >= 0,
            w < pr * k2,
            pr > 0,
    ;
    assert(w % ps + vm * ps + q * pr < pr * k2) by (nonlinear_arith)
        requires
            w % ps < ps,
            vm < pl,
            pr == ps * pl,
            q < k2,
            q >= 0,
            ps > 0,
    ;
    assert(splice(w, s, len, v) == w % ps + vm * ps + q * pr);
    assert(pow2(m) == pr * k2);
}

/// Loading a field that was just stored gives back the stored value's low bits.
proof fn lemma_splice_then_bits(x: nat, off: nat, len: nat, v: nat)
    ensures
        bits_of(splice(x, off, len, v), off, len) == v % pow2(len),
{
    let po = pow2(off);
    let pl = pow2(len);
    let pr = pow2(off + len);
    lemma_pow2_pos(off);
    lemma_pow2_pos(len);
    lemma_pow2_pos(off + len);
    lemma_pow2_adds(off, len);
    let vm = v % pl;
    let q = x / pr;
    let y = splice(x, off, len, v);
    lemma_mod_pos_bound(x as int, po as int);
    lemma_mod_pos_bound(v as int, pl as int);
    assert(y == po * (vm + pl * q) + x % po) by (nonlinear_arith)
        requires
            y == x % po + vm * po + q * pr,
            pr == po * pl,
    ;
    lemma_div_multiples_vanish_fancy((vm + pl * q) as int, (x % po) as int, po as int);
    assert(y / po == vm + pl * q);
    lemma_mod_multiples_vanish(q as int, vm as int, pl as int);
    let z: int = pl as int * q as int + vm as int;
    assert(pl as int * q as int >= 0) by (nonlinear_arith)
        requires
            pl > 0,
            q >= 0,
    ;
    assert(z % (pl as int) == (vm as int) % (pl as int));
    assert((y / po) as int == z);
    lemma_small_mod(vm, pl);
    assert(bits_of(y, off, len) == (y / po) % pl);
}

/// A bit below `off` or at `off + len` and above is the same in `x` and in its splice.
proof fn lemma_splice_keeps_bit(x: nat, off: nat, len: nat, v: nat, i: nat)
    requires
        i < off || off + len <= i,
    ensures
        bit(splice(x, off, len, v), i) == bit(x, i),
{
    let y = splice(x, off, len, v);
    lemma_pow2_pos(i);
    lemma_pow2_pos(1);
    if i < off {
        // Bit i of a number is bit i of its remainder mod 2^off.
        lemma_bit_of_low(x, off, i);
        lemma_bit_of_low(y, off, i);
        assert(y % pow2(off) == x % pow2(off)) by {
            lemma_splice_low(x, off, len, v);
        }
    } else {
        lemma_bit_of_high(x, off + len, i);
        lemma_bit_of_high(y, off + len, i);
        assert(y / pow2(off + len) == x / pow2(off + len)) by {
            lemma_splice_high(x, off, len, v);
        }
    }
}

proof fn lemma_splice_low(x: nat, off: nat, len: nat, v: nat)
    ensures
        splice(x, off, len, v) % pow2(off) == x % pow2(off),
{
    let po = pow2(off);
    let pl = pow2(len);
    let pr = pow2(off + len);
    lemma_pow2_pos(off);
    lemma_pow2_pos(len);
    lemma_pow2_adds(off, len);
    let vm = v % pl;
    let q = x / pr;
    lemma_mod_pos_bound(x as int, po as int);
    lemma_mod_pos_bound(v as int, pl as int);
    assert(splice(x, off, len, v) == po * (vm + pl * q) + x % po) by (nonlinear_arith)
        requires
            splice(x, off, len, v) == x % po + vm * po + q * pr,
            pr == po * pl,
    ;
    lemma_mod_multiples_vanish((vm + pl * q) as int, (x % po) as int, po as int);
    lemma_small_mod(x % po, po);
}

proof fn lemma_splice_high(x: nat, off: nat, len: nat, v: nat)
    ensures
        splice(x, off, len, v) / pow2(off + len) == x / pow2(off + len),
{
    let po = pow2(off);
    let pl = pow2(len);
    let pr = pow2(off + len);
    lemma_pow2_pos(off);
    lemma_pow2_pos(len);
    lemma_pow2_adds(off, len);
    let vm = v % pl;
    let q = x / pr;
    lemma_mod_pos_bound(x as int, po as int);
    lemma_mod_pos_bound(v as int, pl as int);
    assert(x % po + vm * po < pr) by (nonlinear_arith)
        requires
            x % po < po,
            vm < pl,
            pr == po * pl,
            po > 0,
    ;
    assert(splice(x, off, len, v) == pr * q + (x % po + vm * po)) by (nonlinear_arith)
        requires
            splice(x, off, len, v) == x % po + vm * po + q * pr,
    ;
    lemma_div_multiples_vanish_fancy(q as int, (x % po + vm * po) as int, pr as int);
}

/// Bit `i < k` of `x` is bit `i` of `x % 2^k`.
proof fn lemma_bit_of_low(x: nat, k: nat, i: nat)
    requires
        i < k,
    ensures
        bit(x, i) == bit(x % pow2(k), i),
{
    let pi = pow2(i);
    let pk = pow2(k);
    let d = pow2((k - i) as nat);
    lemma_pow2_pos(i);
    lemma_pow2_pos(k);
    lemma_pow2_pos((k - i) as nat);
    lemma_pow2_adds(i, (k - i) as nat);
    assert(i + (k - i) as nat == k);
    lemma_pow2_adds(1, (k - i - 1) as nat);
    assert(1 + (k - i - 1) as nat == (k - i) as nat);
    lemma2_to64();
    // x = pk * (x / pk) + x % pk, so x / pi = d * (x / pk) + (x % pk) / pi
    lemma_fundamental_div_mod(x as int, pk as int);
    lemma_mod_pos_bound(x as int, pk as int);
    let r = x % pk;
    let q = x / pk;
    lemma_fundamental_div_mod(r as int, pi as int);
    lemma_mod_pos_bound(r as int, pi as int);
    assert(x == pi * (d * q + r / pi) + r % pi) by (nonlinear_arith)
        requires
            x == pk * q + r,
            r == pi * (r / pi) + r % pi,
            pk == pi * d,
    ;
    lemma_div_multiples_vanish_fancy((d * q + r / pi) as int, (r % pi) as int, pi as int);
    let d2 = pow2((k - i - 1) as nat);
    assert(d * q == 2 * (d2 * q)) by (nonlinear_arith)
        requires
            d == 2 * d2,
    ;
    lemma_mod_multiples_vanish((d2 * q) as int, (r / pi) as int, 2);
    lemma_div_pos_is_pos(r as int, pi as int);
}

/// Bit `i >= k` of `x` is bit `i - k` of `x / 2^k`.
proof fn lemma_bit_of_high(x: nat, k: nat, i: nat)
    requires
        k <= i,
    ensures
        bit(x, i) == bit(x / pow2(k), (i - k) as nat),
{
    lemma_pow2_pos(k);
    lemma_pow2_pos((i - k) as nat);
    lemma_pow2_adds(k, (i - k) as nat);
    assert(k + (i - k) as nat == i);
    lemma_div_denominator(x as int, pow2(k) as int, pow2((i - k) as nat) as int);
}

/// The number that `stored` writes is the splice of the old one.
proof fn lemma_stored_value(data: Seq<u8>, off: nat, len: nat, v: nat)
    requires
        fits(off, len, data.len()),
    ensures
        le_value(stored(data, off, len, v)) == splice(le_value(data), off, len, v),
        stored(data, off, len, v).len() == data.len(),
{
    let n = data.len();
    let x = splice(le_value(data), off, len, v);
    lemma_le_bound(data);
    lemma_splice_bound(le_value(data), off, len, 8 * n, v);
    lemma_le_of_bytes(x, n);
}

/// The digits of a number under `2^(8n)` add back up to it.
proof fn lemma_le_of_bytes(x: nat, n: nat)
    requires
        x < pow2(8 * n),
    ensures
        le_value(le_bytes(x, n)) == x,
{
    lemma_le_of_bytes_prefix(x, n);
    lemma_pow2_pos(8 * n);
    lemma_small_mod(x, pow2(8 * n));
    assert(x % pow2(8 * n) == x);
}

proof fn lemma_le_of_bytes_prefix(x: nat, n: nat)
    ensures
        le_value(le_bytes(x, n)) == x % pow2(8 * n),
    decreases n,
{
    if n == 0 {
        lemma2_to64();
        assert(x % 1 == 0);
    } else {
        let k = (n - 1) as nat;
        lemma_le_of_bytes_prefix(x, k);
        assert(le_bytes(x, n).drop_last() =~= le_bytes(x, k));
        let p = pow2(8 * k);
        lemma_pow2_pos(8 * k);
        lemma_pow2_adds(8 * k, 8);
        lemma_pow2_256();
        assert(8 * k + 8 == 8 * n);
        lemma_mod_pos_bound((x / p) as int, 256);
        lemma_breakdown(x as int, p as int, 256);
        assert(p * 256 == pow2(8 * n));
        let t = le_bytes(x, n);
        assert(t.last() as nat == (x / p) % 256);
        assert(le_value(t) == le_value(t.drop_last()) + t.last() as nat * p);
        let d = (x / p) % 256;
        assert(le_value(t) == p * d + x % p) by (nonlinear_arith)
            requires
                le_value(t) == le_value(t.drop_last()) + t.last() as nat * p,
                le_value(t.drop_last()) == x % p,
                t.last() as nat == d,
        ;
    }
}

/// A store keeps the buffer's length.
pub proof fn lemma_stored_len(data: Seq<u8>, off: nat, len: nat, v: nat)
    ensures
        stored(data, off, len, v).len() == data.len(),
{
}

/// A field of `len` bits holds a number under `2^len`.
pub proof fn lemma_field_value_bound(data: Seq<u8>, off: nat, len: nat)
    ensures
        field_value(data, off, len) < pow2(len),
{
    lemma_pow2_pos(len);
    lemma_pow2_pos(off);
    lemma_mod_pos_bound((le_value(data) / pow2(off)) as int, pow2(len) as int);
}

/// Powers of two grow with the exponent.
pub proof fn lemma_pow2_le(a: nat, b: nat)
    requires
        a <= b,
    ensures
        pow2(a) <= pow2(b),
{
    if a < b {
        lemma_pow2_strictly_increases(a, b);
    }
}

/// 2 to the power `e`.
fn pow2_u128(e: u32) -> (r: u128)
    requires
        e <= 72,
    ensures
        r == pow2(e as nat),
{
    let mut r: u128 = 1;
    let mut i: u32 = 0;
    proof {
        lemma2_to64();
    }
    while i < e
        invariant
            i <= e <= 72,
            r == pow2(i as nat),
        decreases e - i,
    {
        proof {
            lemma_pow2_unfold((i + 1) as nat);
            if i + 1 < 72 {
                lemma_pow2_strictly_increases((i + 1) as nat, 72);
            }
            lemma_pow2_adds(64, 8);
            lemma2_to64();
            lemma_pow2_256();
        }
        r = r * 2;
        i = i + 1;
    }
    r
}

/// The number held by `n <= 9` bytes of `data` from `begin` on.
fn read_window(data: &[u8], begin: usize, n: usize) -> (w: u128)
    requires
        begin + n <= data@.len(),
        n <= 9,
    ensures
        w == le_value(data@.subrange(begin as int, begin + n)),
        w < pow2((8 * n) as nat),
{
    let dl = data.len();
    let mut w: u128 = 0;
    let mut mult: u128 = 1;
    let mut j: usize = 0;
    proof {
        lemma2_to64();
        assert(data@.subrange(begin as int, begin as int).len() == 0);
    }
    while j < n
        invariant
            j <= n <= 9,
            begin + n <= data@.len(),
            dl == data@.len(),
            mult == pow2((8 * j) as nat),
            w == le_value(data@.subrange(begin as int, begin + j)),
            w < mult,
        decreases n - j,
    {
        let b = data[begin + j];
        proof {
            let s = data@.subrange(begin as int, begin + j + 1);
            assert(s.drop_last() =~= data@.subrange(begin as int, begin + j));
            assert(s.last() == b);
            lemma_pow2_adds((8 * j) as nat, 8);
            lemma_pow2_256();
            lemma_pow2_strictly_increases((8 * j + 8) as nat, 73);
            lemma_pow2_adds(64, 9);
            lemma2_to64();
            assert(w + (b as nat) * mult < mult * 256) by (nonlinear_arith)
                requires
                    w < mult,
                    b < 256,
            ;
        }
        w = w + (b as u128) * mult;
        mult = mult * 256;
        j = j + 1;
    }
    w
}

/// Writes the `n <= 9` digits of `w` into `data` from `begin` on.
fn write_window(data: &mut [u8], begin: usize, n: usize, w: u128)
    requires
        begin + n <= old(data)@.len(),
        n <= 9,
        w < pow2((8 * n) as nat),
    ensures
        final(data)@.len() == old(data)@.len(),
        le_value(final(data)@.subrange(begin as int, begin + n)) == w,
        final(data)@.subrange(0, begin as int) == old(data)@.subrange(0, begin as int),
        final(data)@.subrange(begin + n, old(data)@.len() as int) == old(data)@.subrange(
            begin + n,
            old(data)@.len() as int,
        ),
{
    let ghost len = data@.len() as int;
    let dl = data.len();
    let mut mult: u128 = 1;
    let mut j: usize = 0;
    proof {
        lemma2_to64();
        assert(data@.subrange(begin as int, begin as int).len() == 0);
    }
    while j < n
        invariant
            j <= n <= 9,
            begin + n <= len,
            data@.len() == len,
            old(data)@.len() == len,
            dl == len,
            w < pow2((8 * n) as nat),
            mult == pow2((8 * j) as nat),
            le_value(data@.subrange(begin as int, begin + j)) == w as nat % mult as nat,
            data@.subrange(0, begin as int) == old(data)@.subrange(0, begin as int),
            data@.subrange(begin + n, len) == old(data)@.subrange(begin + n, len),
        decreases n - j,
    {
        proof {
            lemma_pow2_adds((8 * j) as nat, 8);
            lemma_pow2_256();
            lemma_pow2_strictly_increases((8 * j + 8) as nat, 73);
            lemma_pow2_adds(64, 9);
            lemma2_to64();
            lemma_pow2_pos((8 * j) as nat);
        }
        let b: u8 = ((w / mult) % 256) as u8;
        let ghost before = data@;
        data[begin + j] = b;
        proof {
            let s = data@.subrange(begin as int, begin + j + 1);
            assert(s.drop_last() =~= before.subrange(begin as int, begin + j));
            assert(data@.subrange(0, begin as int) =~= before.subrange(0, begin as int));
            assert(data@.subrange(begin + n, len) =~= before.subrange(begin + n, len));
            lemma_breakdown(w as int, mult as int, 256);
            assert(le_value(s) == w as nat % mult as nat + (b as nat) * mult);
            assert((b as nat) * mult == mult * ((w as nat / mult as nat) % 256));
        }
        mult = mult * 256;
        j = j + 1;
    }
    proof {
        lemma_pow2_pos((8 * n) as nat);
        lemma_small_mod(w as nat, mult as nat);
    }
}

/// Where a field sits: its first byte, its byte count and its shift in the first byte.
fn locate(off: usize, len: usize) -> (r: (usize, usize, usize))
    requires
        1 <= len <= 64,
    ensures
        r.0 == off / 8,
        r.2 == off % 8,
        1 <= r.1 <= 9,
        8 * r.0 + r.2 == off,
        r.2 + len <= 8 * r.1,
        8 * (r.1 - 1) < r.2 + len,
{
    let begin = off / 8;
    let shift = off % 8;
    let n = (shift + len - 1) / 8 + 1;
    (begin, n, shift)
}

/// Reads the field of `len` bits at bit offset `off`.
pub fn load_bits(off: usize, len: usize, data: &[u8]) -> (r: u64)
    requires
        1 <= len <= 64,
        fits(off as nat, len as nat, data@.len()),
    ensures
        r as nat == field_value(data@, off as nat, len as nat),
{
    let (begin, n, shift) = locate(off, len);
    proof {
        assert(begin + n <= data@.len()) by (nonlinear_arith)
            requires
                8 * begin + shift == off,
                8 * (n - 1) < shift + len,
                off + len <= 8 * data@.len(),
                n >= 1,
        ;
    }
    let w = read_window(data, begin, n);
    let p_shift = pow2_u128(shift as u32);
    let p_len = pow2_u128(len as u32);
    proof {
        lemma_pow2_pos(len as nat);
        lemma_pow2_pos(shift as nat);
    }
    let r = (w / p_shift) % p_len;
    proof {
        let d = data@;
        lemma_le_window(d, begin as int, n as int);
        let lo = le_value(d.subrange(0, begin as int));
        let hi = le_value(d.subrange(begin + n, d.len() as int));
        lemma_low_part(lo, w as nat + pow2((8 * n) as nat) * hi, (8 * begin) as nat,
            shift as nat, len as nat, 0);
        lemma_high_part(w as nat, hi, (8 * n) as nat, shift as nat, len as nat, 0);
        assert((8 * begin) as nat + shift as nat == off as nat);
        lemma_pow2_pos(len as nat);
        lemma_pow2_pos(shift as nat);
        lemma_pow2_strictly_increases(len as nat, 65);
        lemma_pow2_unfold(64);
        lemma2_to64();
        lemma_mod_pos_bound((w / p_shift) as int, p_len as int);
        if len < 64 {
            lemma_pow2_strictly_increases(len as nat, 64);
        }
    }
    r as u64
}

/// Writes the low `len` bits of `val` into the field at bit offset `off`.
pub fn store_bits(off: usize, len: usize, data: &mut [u8], val: u64)
    requires
        1 <= len <= 64,
        fits(off as nat, len as nat, old(data)@.len()),
    ensures
        final(data)@ == stored(old(data)@, off as nat, len as nat, val as nat),
{
    let (begin, n, shift) = locate(off, len);
    proof {
        assert(begin + n <= data@.len()) by (nonlinear_arith)
            requires
                8 * begin + shift == off,
                8 * (n - 1) < shift + len,
                off + len <= 8 * data@.len(),
                n >= 1,
        ;
    }
    let w = read_window(data, begin, n);
    let p_shift = pow2_u128(shift as u32);
    let p_len = pow2_u128(len as u32);
    let p_high = pow2_u128((shift + len) as u32);
    proof {
        lemma_pow2_pos(shift as nat);
        lemma_pow2_pos(len as nat);
        lemma_pow2_pos((shift + len) as nat);
        lemma_splice_bound(w as nat, shift as nat, len as nat, (8 * n) as nat, val as nat);
        lemma_pow2_strictly_increases((8 * n) as nat, 73);
        lemma_pow2_adds(64, 9);
        lemma2_to64();
        lemma_mod_pos_bound(w as int, p_shift as int);
        lemma_mod_pos_bound(val as int, p_len as int);
        lemma_fundamental_div_mod(w as int, p_high as int);
        lemma_mod_pos_bound(w as int, p_high as int);
        assert((val as nat % p_len as nat) * p_shift as nat <= w as nat % p_shift as nat + (val
            as nat % p_len as nat) * p_shift as nat + (w as nat / p_high as nat) * p_high as nat)
            by (nonlinear_arith);
        assert((w as nat / p_high as nat) * p_high as nat <= w as nat % p_shift as nat + (val
            as nat % p_len as nat) * p_shift as nat + (w as nat / p_high as nat) * p_high as nat)
            by (nonlinear_arith);
    }
    let new_w = w % p_shift + ((val as u128) % p_len) * p_shift + (w / p_high) * p_high;
    let ghost old_data = data@;
    write_window(data, begin, n, new_w);
    proof {
        let len_all = old_data.len() as int;
        lemma_le_window(old_data, begin as int, n as int);
        lemma_le_window(data@, begin as int, n as int);
        let lo = le_value(old_data.subrange(0, begin as int));
        let hi = le_value(old_data.subrange(begin + n, len_all));
        let m = pow2((8 * n) as nat);
        lemma_high_part(w as nat, hi, (8 * n) as nat, shift as nat, len as nat, val as nat);
        lemma_low_part(lo, w as nat + m * hi, (8 * begin) as nat, shift as nat, len as nat,
            val as nat);
        assert((8 * begin) as nat + shift as nat == off as nat);
        lemma_stored_value(old_data, off as nat, len as nat, val as nat);
        lemma_le_bytes_of_value(data@, le_value(data@));
    }
}

/// The first byte, the bytes between and the last byte of a run of at least two.
pub fn split(data: &[u8]) -> (r: (u8, &[u8], u8))
    requires
        data@.len() >= 2,
    ensures
        r.0 == data@[0],
        r.1@ == data@.subrange(1, data@.len() - 1),
        r.2 == data@[data@.len() - 1],
{
    let h = data[0];
    let t = data[data.len() - 1];
    (h, vstd::slice::slice_subrange(data, 1, data.len() - 1), t)
}

/// Storing a value and then loading the same field gives the value back.
pub proof fn lemma_round_trip(data: Seq<u8>, off: nat, len: nat, v: nat)
    requires
        1 <= len <= 64,
        fits(off, len, data.len()),
        v < pow2(len),
    ensures
        field_value(stored(data, off, len, v), off, len) == v,
{
    lemma_stored_value(data, off, len, v);
    lemma_splice_then_bits(le_value(data), off, len, v);
    lemma_small_mod(v, pow2(len));
}

/// A store changes no bit of the buffer outside the field it writes.
pub proof fn lemma_non_interference(data: Seq<u8>, off: nat, len: nat, v: nat)
    requires
        fits(off, len, data.len()),
    ensures
        forall|i: nat|
            i < 8 * data.len() && (i < off || off + len <= i) ==> bit(
                le_value(stored(data, off, len, v)),
                i,
            ) == #[trigger] bit(le_value(data), i),
{
    lemma_stored_value(data, off, len, v);
    assert forall|i: nat| i < 8 * data.len() && (i < off || off + len <= i) implies bit(
        le_value(stored(data, off, len, v)),
        i,
    ) == #[trigger] bit(le_value(data), i) by {
        lemma_splice_keeps_bit(le_value(data), off, len, v, i);
    }
}

} // verus!
