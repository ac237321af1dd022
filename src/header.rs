use vstd::prelude::*;
use crate::kind::{Kind, kind_token, kind_of_token, lemma_kind_token_round_trip};
use vstd::slice::slice_subrange;

verus! {

pub open spec fn is_digit(b: u8) -> bool {
    48 <= b && b <= 57
}

/// The value of a sequence of ASCII decimal digits, most significant first.
pub open spec fn decimal_value(d: Seq<u8>) -> nat
    decreases d.len(),
{
    if d.len() == 0 {
        0
    } else {
        decimal_value(d.drop_last()) * 10 + (d.last() - 48) as nat
    }
}

/// The shortest decimal rendering of `n`.
pub open spec fn decimal_digits(n: nat) -> Seq<u8>
    decreases n,
{
    if n < 10 {
        seq![(n + 48) as u8]
    } else {
        decimal_digits(n / 10).push((n % 10 + 48) as u8)
    }
}

pub proof fn lemma_decimal_digits(n: nat)
    ensures
        decimal_digits(n).len() > 0,
        forall|i: int| 0 <= i < decimal_digits(n).len() ==> is_digit(#[trigger] decimal_digits(n)[i]),
        decimal_value(decimal_digits(n)) == n,
    decreases n,
{
    if n >= 10 {
        lemma_decimal_digits(n / 10);
        let d = decimal_digits(n);
        assert(d.drop_last() =~= decimal_digits(n / 10));
        assert(d.last() == (n % 10 + 48) as u8);
        assert((n / 10) * 10 + n % 10 == n);
    } else {
        let d = decimal_digits(n);
        assert(d.drop_last() =~= Seq::<u8>::empty());
        assert(decimal_value(d.drop_last()) == 0);
    }
}

/// Renders `n` in decimal.
pub fn decimal(n: u64) -> (r: Vec<u8>)
    ensures
        r@ == decimal_digits(n as nat),
{
    let mut m: u64 = n;
    let mut out: Vec<u8> = Vec::new();
    while m >= 10
        invariant
            decimal_digits(n as nat) == decimal_digits(m as nat) + out@,
        decreases m,
    {
        let d: u8 = (m % 10) as u8 + 48;
        proof {
            assert(decimal_digits(m as nat) == decimal_digits((m / 10) as nat).push(d));
            assert(decimal_digits(m as nat) + out@ =~= decimal_digits((m / 10) as nat) + seq![d] + out@);
        }
        out.insert(0, d);
        m = m / 10;
    }
    let d: u8 = m as u8 + 48;
    out.insert(0, d);
    assert(out@ =~= decimal_digits(n as nat));
    out
}


/// A header whose text, leaving out the leading zeros of its size field,
/// reaches this many bytes is refused: no well-formed header comes near it.
pub const MAX_HEADER_LEN: usize = 32;

/// The index of the first `b` in `s`, or `s.len()` when there is none.
pub open spec fn find_byte(s: Seq<u8>, b: u8) -> nat
    decreases s.len(),
{
    if s.len() == 0 {
        0
    } else if s[0] == b {
        0
    } else {
        1 + find_byte(s.drop_first(), b)
    }
}

pub proof fn lemma_find_byte(s: Seq<u8>, b: u8)
    ensures
        find_byte(s, b) <= s.len(),
        find_byte(s, b) < s.len() ==> s[find_byte(s, b) as int] == b,
        forall|j: int| 0 <= j < find_byte(s, b) ==> s[j] != b,
    decreases s.len(),
{
    if s.len() > 0 && s[0] != b {
        lemma_find_byte(s.drop_first(), b);
        assert forall|j: int| 0 <= j < find_byte(s, b) implies s[j] != b by {
            if j > 0 {
                assert(s[j] == s.drop_first()[j - 1]);
            }
        }
    }
}

/// `find_byte` is determined by any prefix that already holds a `b`.
pub proof fn lemma_find_byte_extend(s: Seq<u8>, t: Seq<u8>, b: u8)
    ensures
        find_byte(s, b) < s.len() ==> find_byte(s + t, b) == find_byte(s, b),
        find_byte(s, b) == s.len() ==> find_byte(s + t, b) == s.len() + find_byte(t, b),
    decreases s.len(),
{
    if s.len() == 0 {
        assert(s + t =~= t);
    } else {
        assert((s + t).drop_first() =~= s.drop_first() + t);
        lemma_find_byte_extend(s.drop_first(), t, b);
    }
}

pub open spec fn all_digits(d: Seq<u8>) -> bool {
    forall|i: int| 0 <= i < d.len() ==> is_digit(#[trigger] d[i])
}

/// The exact bytes of the header of an object of kind `k` whose body has
/// `size` bytes: the kind token, a space, the size in decimal, and a NUL.
pub open spec fn header_bytes(k: Kind, size: nat) -> Seq<u8> {
    kind_token(k) + seq![32u8] + decimal_digits(size) + seq![0u8]
}

/// The kind and size written in a header's text (the bytes before its NUL):
/// a known kind token, one space, and one or more decimal digits whose value
/// fits in 64 bits.
pub open spec fn header_fields(t: Seq<u8>) -> Option<(Kind, u64)> {
    let sp = find_byte(t, 32);
    let digits = t.subrange(sp + 1int, t.len() as int);
    if sp < t.len() && kind_of_token(t.take(sp as int)) is Some && digits.len() > 0
        && all_digits(digits) && decimal_value(digits) <= u64::MAX {
        Some((kind_of_token(t.take(sp as int))->0, decimal_value(digits) as u64))
    } else {
        None
    }
}

/// What the first bytes of a decompressed object stream say of its header.
pub enum HeaderScan {
    /// No NUL yet, and still short enough to become a header.
    Pending,
    /// The bytes cannot begin a well-formed header.
    Corrupt,
    /// A well-formed header of `len` bytes, its NUL included.
    Ready { kind: Kind, size: u64, len: nat },
}

/// The number of `0` digits that open `t`.
pub open spec fn leading_zeros(t: Seq<u8>) -> nat
    decreases t.len(),
{
    if t.len() == 0 || t[0] != 48 {
        0
    } else {
        1 + leading_zeros(t.drop_first())
    }
}

/// The leading zeros of the size field in the header text `q`, that is the
/// `0` digits right after its first space.
pub open spec fn size_zeros(q: Seq<u8>) -> nat {
    let sp = find_byte(q, 32);
    if sp < q.len() {
        leading_zeros(q.subrange(sp + 1int, q.len() as int))
    } else {
        0
    }
}

/// The bytes of the header text `q` that count against the cap.
pub open spec fn counted_len(q: Seq<u8>) -> int {
    q.len() - size_zeros(q)
}

/// The header text `q` is already too long to start a well-formed header.
pub open spec fn header_too_long(q: Seq<u8>) -> bool {
    counted_len(q) >= MAX_HEADER_LEN || size_zeros(q) >= u64::MAX
}

pub open spec fn scan_header(s: Seq<u8>) -> HeaderScan {
    let z = find_byte(s, 0);
    let q = s.take(z as int);
    if header_too_long(q) {
        HeaderScan::Corrupt
    } else if z < s.len() {
        match header_fields(q) {
            Some((k, n)) => HeaderScan::Ready { kind: k, size: n, len: z + 1 },
            None => HeaderScan::Corrupt,
        }
    } else {
        HeaderScan::Pending
    }
}

pub proof fn lemma_leading_zeros_push(t: Seq<u8>, b: u8)
    ensures
        leading_zeros(t) <= t.len(),
        leading_zeros(t.push(b)) == if leading_zeros(t) == t.len() && b == 48 {
            t.len() + 1
        } else {
            leading_zeros(t)
        },
    decreases t.len(),
{
    assert(t.push(b)[0] == if t.len() > 0 { t[0] } else { b });
    if t.len() > 0 {
        assert(t.push(b).drop_first() =~= t.drop_first().push(b));
        lemma_leading_zeros_push(t.drop_first(), b);
    } else {
        assert(t.push(b).drop_first() =~= Seq::<u8>::empty());
        assert(leading_zeros(Seq::<u8>::empty()) == 0);
    }
}

/// One more byte of header text: either it lengthens the run of leading
/// zeros of the size, or it counts against the cap.
pub proof fn lemma_header_text_push(q: Seq<u8>, b: u8)
    ensures
        size_zeros(q) <= q.len(),
        ({
            let sp = find_byte(q, 32);
            let extends = sp < q.len() && size_zeros(q) == q.len() - sp - 1 && b == 48;
            &&& extends ==> size_zeros(q.push(b)) == size_zeros(q) + 1 && counted_len(q.push(b))
                == counted_len(q)
            &&& !extends ==> size_zeros(q.push(b)) == size_zeros(q) && counted_len(q.push(b))
                == counted_len(q) + 1
        }),
{
    let sp = find_byte(q, 32);
    lemma_find_byte(q, 32);
    lemma_find_byte_extend(q, seq![b], 32);
    assert(q + seq![b] =~= q.push(b));
    if sp < q.len() {
        let t = q.subrange(sp + 1int, q.len() as int);
        assert(q.push(b).subrange(sp + 1int, q.len() + 1int) =~= t.push(b));
        lemma_leading_zeros_push(t, b);
    } else {
        assert(find_byte(seq![b], 32) == if b == 32 { 0nat } else { 1nat }) by {
            reveal_with_fuel(find_byte, 2);
        }
        if b == 32 {
            assert(q.push(b).subrange(q.len() + 1int, q.len() + 1int) =~= Seq::<u8>::empty());
        }
    }
}

/// What a header text keeps in memory: everything but the leading zeros of
/// its size field.
pub open spec fn kept_text(q: Seq<u8>) -> Seq<u8> {
    let sp = find_byte(q, 32);
    if sp < q.len() {
        q.take(sp + 1int) + q.skip(sp + 1int + size_zeros(q))
    } else {
        q
    }
}

/// The kept text with one `0` put back in place of the leading zeros.
pub open spec fn restored_text(q: Seq<u8>) -> Seq<u8> {
    let sp = find_byte(q, 32);
    if sp < q.len() && size_zeros(q) > 0 {
        q.take(sp + 1int) + seq![48u8] + q.skip(sp + 1int + size_zeros(q))
    } else {
        kept_text(q)
    }
}

pub open spec fn all_zeros(z: Seq<u8>) -> bool {
    forall|i: int| 0 <= i < z.len() ==> z[i] == 48
}

proof fn lemma_zeros_prefix_value(z: Seq<u8>, r: Seq<u8>)
    requires
        all_zeros(z),
    ensures
        decimal_value(z + r) == decimal_value(r),
    decreases z.len() + r.len(),
{
    if r.len() == 0 {
        assert(z + r =~= z);
        if z.len() > 0 {
            lemma_zeros_prefix_value(z.drop_last(), r);
            assert(z.drop_last() + r =~= z.drop_last());
        }
    } else {
        assert((z + r).drop_last() =~= z + r.drop_last());
        lemma_zeros_prefix_value(z, r.drop_last());
    }
}

/// The leading zeros of `t` are zeros, and what follows them does not start
/// with one.
proof fn lemma_leading_zeros(t: Seq<u8>)
    ensures
        leading_zeros(t) <= t.len(),
        all_zeros(t.take(leading_zeros(t) as int)),
        leading_zeros(t) < t.len() ==> t[leading_zeros(t) as int] != 48,
    decreases t.len(),
{
    if t.len() > 0 && t[0] == 48 {
        lemma_leading_zeros(t.drop_first());
        assert forall|i: int| 0 <= i < leading_zeros(t) implies t.take(leading_zeros(t) as int)[i]
            == 48 by {
            if i > 0 {
                assert(t[i] == t.drop_first()[i - 1]);
                assert(t.drop_first().take(leading_zeros(t.drop_first()) as int)[i - 1] == 48);
            }
        }
    }
}

/// Leading zeros of the size do not change what a header says.
pub proof fn lemma_restored_text_fields(q: Seq<u8>)
    ensures
        header_fields(restored_text(q)) == header_fields(q),
        kept_text(q).len() == counted_len(q),
        find_byte(kept_text(q), 32) == find_byte(q, 32),
{
    let sp = find_byte(q, 32);
    lemma_find_byte(q, 32);
    if sp < q.len() {
        let k = size_zeros(q);
        let a = q.take(sp + 1int);
        let t = q.subrange(sp + 1int, q.len() as int);
        lemma_leading_zeros(t);
        let zs = t.take(k as int);
        let r = q.skip(sp + 1int + k);
        assert(t =~= zs + r);
        assert(q =~= a + t);
        let z1 = if k > 0 { seq![48u8] } else { Seq::<u8>::empty() };
        let x = restored_text(q);
        assert(x =~= a + (z1 + r));
        assert(kept_text(q) =~= a + r);
        lemma_find_byte_absent(a.take(sp as int), 32);
        assert(a =~= a.take(sp as int) + seq![32u8]);
        lemma_find_byte_extend(a.take(sp as int), seq![32u8], 32);
        assert(find_byte(seq![32u8], 32) == 0);
        assert(find_byte(a, 32) == sp);
        lemma_find_byte_extend(a, z1 + r, 32);
        lemma_find_byte_extend(a, r, 32);
        lemma_find_byte_extend(a, t, 32);
        assert(x.take(sp as int) =~= q.take(sp as int));
        assert(x.subrange(sp + 1int, x.len() as int) =~= z1 + r);
        assert(q.subrange(sp + 1int, q.len() as int) =~= zs + r);
        lemma_zeros_prefix_value(zs, r);
        lemma_zeros_prefix_value(z1, r);
        assert(all_digits(zs + r) == all_digits(r)) by {
            if all_digits(r) {
                assert forall|i: int| 0 <= i < (zs + r).len() implies is_digit(#[trigger] (zs + r)[i]) by {
                    if i >= zs.len() {
                        assert((zs + r)[i] == r[i - zs.len()]);
                    }
                }
            }
            if all_digits(zs + r) {
                assert forall|i: int| 0 <= i < r.len() implies is_digit(#[trigger] r[i]) by {
                    assert((zs + r)[i + zs.len()] == r[i]);
                }
            }
        }
        assert(all_digits(z1 + r) == all_digits(r)) by {
            if all_digits(r) {
                assert forall|i: int| 0 <= i < (z1 + r).len() implies is_digit(#[trigger] (z1 + r)[i]) by {
                    if i >= z1.len() {
                        assert((z1 + r)[i] == r[i - z1.len()]);
                    }
                }
            }
            if all_digits(z1 + r) {
                assert forall|i: int| 0 <= i < r.len() implies is_digit(#[trigger] r[i]) by {
                    assert((z1 + r)[i + z1.len()] == r[i]);
                }
            }
        }
    }
}

/// The size field of the header text `q` so far is all zeros.
pub open spec fn in_zero_run(q: Seq<u8>) -> bool {
    find_byte(q, 32) < q.len() && size_zeros(q) == q.len() - find_byte(q, 32) - 1
}

/// How one more byte of header text changes what is kept of it.
pub proof fn lemma_kept_text_push(q: Seq<u8>, b: u8)
    ensures
        find_byte(q, 32) < q.len() ==> find_byte(q.push(b), 32) == find_byte(q, 32),
        find_byte(q, 32) == q.len() ==> (find_byte(q.push(b), 32) < q.push(b).len() <==> b == 32),
        in_zero_run(q.push(b)) == if find_byte(q, 32) < q.len() {
            in_zero_run(q) && b == 48
        } else {
            b == 32
        },
        in_zero_run(q) && b == 48 ==> kept_text(q.push(b)) == kept_text(q),
        !(in_zero_run(q) && b == 48) ==> kept_text(q.push(b)) == kept_text(q).push(b),
{
    let sp = find_byte(q, 32);
    lemma_find_byte(q, 32);
    lemma_find_byte_extend(q, seq![b], 32);
    lemma_header_text_push(q, b);
    assert(q + seq![b] =~= q.push(b));
    assert(find_byte(seq![b], 32) == if b == 32 { 0nat } else { 1nat }) by {
        reveal_with_fuel(find_byte, 2);
    }
    if sp < q.len() {
        let k = size_zeros(q);
        if in_zero_run(q) && b == 48 {
            assert(q.skip(sp + 1int + k) =~= Seq::<u8>::empty());
            assert(q.push(b).skip(sp + 1int + k + 1) =~= Seq::<u8>::empty());
            assert(q.push(b).take(sp + 1int) =~= q.take(sp + 1int));
        } else {
            lemma_leading_zeros_push(q.subrange(sp + 1int, q.len() as int), b);
            assert(k <= q.len() - sp - 1);
            assert(q.push(b).take(sp + 1int) =~= q.take(sp + 1int));
            assert(q.push(b).skip(sp + 1int + k) =~= q.skip(sp + 1int + k).push(b));
        }
    } else if b == 32 {
        assert(q.push(b).take(q.len() + 1int) =~= q.push(b));
        assert(q.push(b).skip(q.len() + 1int) =~= Seq::<u8>::empty());
    }
}

/// A header text that is too long stays too long as it grows.
pub proof fn lemma_header_too_long_extend(q: Seq<u8>, t: Seq<u8>)
    requires
        header_too_long(q),
    ensures
        header_too_long(q + t),
    decreases t.len(),
{
    if t.len() > 0 {
        lemma_header_too_long_extend(q, t.drop_last());
        lemma_header_text_push(q + t.drop_last(), t.last());
        assert((q + t.drop_last()).push(t.last()) =~= q + t);
    } else {
        assert(q + t =~= q);
    }
}

/// Once a stream's header is settled, later bytes do not change it.
pub proof fn lemma_scan_header_extend(s: Seq<u8>, t: Seq<u8>)
    requires
        !(scan_header(s) is Pending),
    ensures
        scan_header(s + t) == scan_header(s),
{
    lemma_find_byte_extend(s, t, 0);
    lemma_find_byte(s, 0);
    let z = find_byte(s, 0);
    if z < s.len() {
        assert((s + t).take(z as int) =~= s.take(z as int));
    } else {
        let z2 = find_byte(s + t, 0);
        lemma_find_byte(t, 0);
        assert(s.take(z as int) =~= s);
        assert((s + t).take(z2 as int) =~= s + t.take(z2 - s.len()));
        lemma_header_too_long_extend(s, t.take(z2 - s.len()));
    }
}

/// Appending one byte to a stream whose header is still pending.
pub proof fn lemma_scan_header_push(s: Seq<u8>, b: u8)
    requires
        scan_header(s) is Pending,
    ensures
        b == 0 ==> scan_header(s.push(b)) == match header_fields(s) {
            Some((k, n)) => HeaderScan::Ready { kind: k, size: n, len: s.len() + 1 },
            None => HeaderScan::Corrupt,
        },
        b != 0 ==> (scan_header(s.push(b)) is Corrupt <==> header_too_long(s.push(b))),
        b != 0 ==> (scan_header(s.push(b)) is Pending <==> !header_too_long(s.push(b))),
{
    lemma_find_byte(s, 0);
    lemma_find_byte_extend(s, seq![b], 0);
    assert(s + seq![b] =~= s.push(b));
    assert(s.push(b).take(s.len() as int) =~= s);
    assert(s.take(s.len() as int) =~= s);
    assert(s.push(b).take(s.len() + 1int) =~= s.push(b));
    assert(find_byte(seq![b], 0) == if b == 0 { 0nat } else { 1nat }) by {
        reveal_with_fuel(find_byte, 2);
    }
}

pub open spec fn pow10(k: nat) -> nat
    decreases k,
{
    if k == 0 {
        1
    } else {
        10 * pow10((k - 1) as nat)
    }
}

pub proof fn lemma_decimal_digits_len(n: nat, k: nat)
    requires
        k >= 1,
        n < pow10(k),
    ensures
        decimal_digits(n).len() <= k,
    decreases n,
{
    if n >= 10 {
        assert(k >= 2) by {
            if k == 1 {
                assert(pow10(1) == 10) by {
                    reveal_with_fuel(pow10, 2);
                }
            }
        }
        assert(n / 10 < pow10((k - 1) as nat));
        lemma_decimal_digits_len(n / 10, (k - 1) as nat);
    }
}

/// A sequence none of whose bytes is `b` has no `b` to find.
pub proof fn lemma_find_byte_absent(s: Seq<u8>, b: u8)
    requires
        forall|i: int| 0 <= i < s.len() ==> s[i] != b,
    ensures
        find_byte(s, b) == s.len(),
{
    lemma_find_byte(s, b);
}

#[verifier::rlimit(40)]
pub proof fn lemma_header_bytes(k: Kind, size: u64)
    ensures
        scan_header(header_bytes(k, size as nat)) == (HeaderScan::Ready {
            kind: k,
            size: size,
            len: header_bytes(k, size as nat).len(),
        }),
        header_bytes(k, size as nat).len() <= MAX_HEADER_LEN,
{
    let tok = kind_token(k);
    let d = decimal_digits(size as nat);
    lemma_decimal_digits(size as nat);
    assert(pow10(20) == 100000000000000000000nat) by {
        reveal_with_fuel(pow10, 21);
    }
    lemma_decimal_digits_len(size as nat, 20);
    let text = tok + seq![32u8] + d;
    let h = header_bytes(k, size as nat);
    lemma_header_text_push(text, 0);
    assert(!header_too_long(text));
    assert(h =~= text + seq![0u8]);
    assert forall|i: int| 0 <= i < text.len() implies text[i] != 0 by {
        if i >= tok.len() + 1 {
            assert(text[i] == d[i - tok.len() - 1]);
            assert(is_digit(d[i - tok.len() - 1]));
        }
    }
    lemma_find_byte_absent(text, 0);
    lemma_find_byte_extend(text, seq![0u8], 0);
    assert(find_byte(seq![0u8], 0) == 0);
    assert(h.take(text.len() as int) =~= text);
    lemma_find_byte_absent(tok, 32);
    lemma_find_byte_extend(tok, seq![32u8] + d, 32);
    assert(text =~= tok + (seq![32u8] + d));
    assert(find_byte(seq![32u8] + d, 32) == 0);
    assert(text.take(tok.len() as int) =~= tok);
    assert(text.subrange(tok.len() + 1int, text.len() as int) =~= d);
    lemma_kind_token_round_trip(k);
}

/// `find_byte` is the one index before which no `b` occurs and at which,
/// short of the end, a `b` stands.
pub proof fn lemma_find_byte_unique(s: Seq<u8>, b: u8, i: nat)
    requires
        i <= s.len(),
        forall|j: int| 0 <= j < i ==> s[j] != b,
        i < s.len() ==> s[i as int] == b,
    ensures
        find_byte(s, b) == i,
{
    lemma_find_byte(s, b);
}

/// The index of the first `b` in `s`, or its length when there is none.
pub fn find_first(s: &[u8], b: u8) -> (r: usize)
    ensures
        r == find_byte(s@, b),
{
    let mut i: usize = 0;
    while i < s.len() && s[i] != b
        invariant
            i <= s.len(),
            forall|j: int| 0 <= j < i ==> s@[j] != b,
        decreases s.len() - i,
    {
        i = i + 1;
    }
    proof {
        lemma_find_byte_unique(s@, b, i as nat);
    }
    i
}

pub proof fn lemma_decimal_value_prefix(d: Seq<u8>, i: int)
    requires
        0 <= i <= d.len(),
    ensures
        decimal_value(d.take(i)) <= decimal_value(d),
    decreases d.len(),
{
    if i < d.len() {
        assert(d.drop_last().take(i) =~= d.take(i));
        lemma_decimal_value_prefix(d.drop_last(), i);
    } else {
        assert(d.take(i) =~= d);
    }
}

/// The decimal number spelled by `d`: `None` unless `d` is one or more ASCII
/// digits whose value fits in 64 bits.
pub open spec fn decimal_number(d: Seq<u8>) -> Option<u64> {
    if d.len() > 0 && all_digits(d) && decimal_value(d) <= u64::MAX {
        Some(decimal_value(d) as u64)
    } else {
        None
    }
}

/// Reads a decimal number; leading zeros are allowed, signs are not.
pub fn parse_decimal(d: &[u8]) -> (r: Option<u64>)
    ensures
        r == decimal_number(d@),
{
    if d.len() == 0 {
        return None;
    }
    let mut acc: u64 = 0;
    let mut i: usize = 0;
    while i < d.len()
        invariant
            i <= d.len(),
            all_digits(d@.take(i as int)),
            acc as nat == decimal_value(d@.take(i as int)),
        decreases d.len() - i,
    {
        let c = d[i];
        if c < 48 || c > 57 {
            assert(!is_digit(d@[i as int]));
            return None;
        }
        proof {
            assert(d@.take(i + 1).drop_last() =~= d@.take(i as int));
            assert(all_digits(d@.take(i + 1)));
        }
        let digit: u64 = (c - 48) as u64;
        let next = match acc.checked_mul(10) {
            Some(m) => m.checked_add(digit),
            None => None,
        };
        match next {
            Some(v) => {
                acc = v;
            },
            None => {
                proof {
                    lemma_decimal_value_prefix(d@, i + 1);
                }
                return None;
            },
        }
        i = i + 1;
    }
    assert(d@.take(i as int) =~= d@);
    Some(acc)
}

/// Reads the kind and size from a header's text (the bytes before its NUL).
pub fn parse_header_fields(t: &[u8]) -> (r: Option<(Kind, u64)>)
    ensures
        r == header_fields(t@),
{
    let sp = find_first(t, 32);
    if sp >= t.len() {
        return None;
    }
    let k = match Kind::from_token(slice_subrange(t, 0, sp)) {
        Some(k) => k,
        None => {
            return None;
        },
    };
    let digits = slice_subrange(t, sp + 1, t.len());
    match parse_decimal(digits) {
        Some(n) => Some((k, n)),
        None => None,
    }
}

proof fn lemma_decimal_digits_first(n: nat)
    ensures
        n > 0 ==> decimal_digits(n)[0] != 48,
        decimal_digits(n).len() > 0,
    decreases n,
{
    if n >= 10 {
        lemma_decimal_digits_first(n / 10);
        assert(decimal_digits(n)[0] == decimal_digits(n / 10)[0]);
    }
}

proof fn lemma_leading_zeros_concat(z: Seq<u8>, d: Seq<u8>)
    requires
        all_zeros(z),
    ensures
        leading_zeros(z + d) == z.len() + leading_zeros(d),
    decreases z.len(),
{
    if z.len() == 0 {
        assert(z + d =~= d);
    } else {
        assert((z + d).drop_first() =~= z.drop_first() + d);
        assert((z + d)[0] == 48);
        lemma_leading_zeros_concat(z.drop_first(), d);
    }
}

/// A well-formed header is read as its kind and size however many zeros
/// pad its size field, up to the count that a 64-bit counter holds.
pub proof fn lemma_padded_header_read(k: Kind, pad: nat, size: u64, rest: Seq<u8>)
    requires
        pad + 1 < u64::MAX,
    ensures
        ({
            let text = kind_token(k) + seq![32u8] + Seq::new(pad, |i: int| 48u8) + decimal_digits(
                size as nat,
            );
            scan_header(text + seq![0u8] + rest) == (HeaderScan::Ready {
                kind: k,
                size: size,
                len: text.len() + 1,
            })
        }),
{
    let tok = kind_token(k);
    let zs = Seq::new(pad, |i: int| 48u8);
    let d = decimal_digits(size as nat);
    let digits = zs + d;
    let text = tok + seq![32u8] + digits;
    assert(tok + seq![32u8] + zs + d =~= text);
    let s = text + seq![0u8] + rest;
    lemma_decimal_digits(size as nat);
    lemma_decimal_digits_first(size as nat);
    assert(pow10(20) == 100000000000000000000nat) by {
        reveal_with_fuel(pow10, 21);
    }
    lemma_decimal_digits_len(size as nat, 20);
    assert forall|i: int| 0 <= i < text.len() implies text[i] != 0 by {
        if i >= tok.len() + 1 + zs.len() {
            assert(text[i] == d[i - tok.len() - 1 - zs.len()]);
            assert(is_digit(d[i - tok.len() - 1 - zs.len()]));
        } else if i >= tok.len() + 1 {
            assert(text[i] == zs[i - tok.len() - 1]);
        }
    }
    lemma_find_byte_absent(text, 0);
    assert(s =~= text + (seq![0u8] + rest));
    lemma_find_byte_extend(text, seq![0u8] + rest, 0);
    assert(find_byte(seq![0u8] + rest, 0) == 0);
    assert(s.take(text.len() as int) =~= text);
    lemma_find_byte_absent(tok, 32);
    assert(text =~= tok + (seq![32u8] + digits));
    lemma_find_byte_extend(tok, seq![32u8] + digits, 32);
    assert(find_byte(seq![32u8] + digits, 32) == 0);
    assert(text.take(tok.len() as int) =~= tok);
    assert(text.subrange(tok.len() + 1int, text.len() as int) =~= digits);
    lemma_kind_token_round_trip(k);
    lemma_zeros_prefix_value(zs, d);
    assert(all_zeros(zs));
    assert(all_digits(digits)) by {
        assert forall|i: int| 0 <= i < digits.len() implies is_digit(#[trigger] digits[i]) by {
            if i >= zs.len() {
                assert(digits[i] == d[i - zs.len()]);
            }
        }
    }
    lemma_leading_zeros_concat(zs, d);
    assert(leading_zeros(d) <= 1) by {
        if size > 0 {
            assert(d[0] != 48);
            assert(leading_zeros(d) == 0);
        } else {
            assert(d =~= seq![48u8]);
            assert(d.drop_first() =~= Seq::<u8>::empty());
            assert(leading_zeros(Seq::<u8>::empty()) == 0);
            assert(leading_zeros(d) == 1 + leading_zeros(d.drop_first()));
        }
    }
    assert(size_zeros(text) == pad + leading_zeros(d));
    assert(!header_too_long(text));
}

/// Encodes the header of an object of kind `k` with a body of `size` bytes.
pub fn encode_header(k: Kind, size: u64) -> (r: Vec<u8>)
    ensures
        r@ == header_bytes(k, size as nat),
{
    let mut r = k.token();
    r.push(32);
    let mut d = decimal(size);
    r.append(&mut d);
    r.push(0);
    r
}

} // verus!
