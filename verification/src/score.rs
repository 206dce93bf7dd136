use vstd::prelude::*;

verus! {

/// One byte of ASCII whitespace, as trimming the stored text strips it.
pub open spec fn is_ascii_ws(b: u8) -> bool {
    b == 32 || b == 9 || b == 10 || b == 13
}

pub open spec fn is_ascii_digit(b: u8) -> bool {
    48 <= b <= 57
}

/// The sequence without its leading whitespace.
pub open spec fn trim_front(s: Seq<u8>) -> Seq<u8>
    decreases s.len(),
{
    if s.len() > 0 && is_ascii_ws(s[0]) {
        trim_front(s.skip(1))
    } else {
        s
    }
}

/// The sequence without its trailing whitespace.
pub open spec fn trim_back(s: Seq<u8>) -> Seq<u8>
    decreases s.len(),
{
    if s.len() > 0 && is_ascii_ws(s.last()) {
        trim_back(s.drop_last())
    } else {
        s
    }
}

/// The sequence without surrounding whitespace.
pub open spec fn trimmed(s: Seq<u8>) -> Seq<u8> {
    trim_back(trim_front(s))
}

pub open spec fn all_digits(s: Seq<u8>) -> bool {
    forall|k: int| 0 <= k < s.len() ==> is_ascii_digit(#[trigger] s[k])
}

/// Value of a sequence of decimal digits, most significant first.
pub open spec fn digits_val(s: Seq<u8>) -> int
    decreases s.len(),
{
    if s.len() == 0 {
        0
    } else {
        digits_val(s.drop_last()) * 10 + (s.last() - 48)
    }
}

/// What loading the score store yields from stored bytes `s`: the decimal
/// value of the whitespace-trimmed text, or 0 when the trimmed text is empty,
/// holds a non-digit, or does not fit in a `u64`.
pub open spec fn parse_score_spec(s: Seq<u8>) -> u64 {
    let t = trimmed(s);
    if t.len() > 0 && all_digits(t) && digits_val(t) <= u64::MAX {
        digits_val(t) as u64
    } else {
        0
    }
}

/// Decimal digits of `v`, most significant first, no leading zeros.
pub open spec fn dec_digits(v: nat) -> Seq<u8>
    decreases v,
{
    if v < 10 {
        seq![(48 + v) as u8]
    } else {
        dec_digits(v / 10).push((48 + v % 10) as u8)
    }
}

/// The exact bytes the score store holds for value `v`: its decimal digits
/// followed by a newline.
pub open spec fn format_score_spec(v: u64) -> Seq<u8> {
    dec_digits(v as nat).push(10)
}

proof fn lemma_dec_digits(v: nat)
    ensures
        dec_digits(v).len() >= 1,
        all_digits(dec_digits(v)),
        digits_val(dec_digits(v)) == v,
    decreases v,
{
    if v < 10 {
        let d = dec_digits(v);
        assert(d == seq![(48 + v) as u8]);
        assert(d.len() == 1);
        assert(d.last() == (48 + v) as u8);
        assert((48 + v) as u8 == 48 + v);
        assert(d.drop_last() =~= Seq::<u8>::empty());
        assert(digits_val(d.drop_last()) == 0);
        assert(digits_val(d) == digits_val(d.drop_last()) * 10 + (d.last() - 48));
    } else {
        lemma_dec_digits(v / 10);
        let d = dec_digits(v / 10);
        let whole = d.push((48 + v % 10) as u8);
        assert(whole.drop_last() =~= d);
        assert(whole.last() == (48 + v % 10) as u8);
        vstd::arithmetic::div_mod::lemma_fundamental_div_mod(v as int, 10);
        assert(forall|k: int| 0 <= k < whole.len() ==> is_ascii_digit(#[trigger] whole[k])) by {
            assert(forall|k: int| 0 <= k < d.len() ==> whole[k] == #[trigger] d[k]);
        }
    }
}

/// Monotonicity of the digit value under taking a prefix.
proof fn lemma_digits_val_take_le(s: Seq<u8>, k: int)
    requires
        all_digits(s),
        0 <= k <= s.len(),
    ensures
        0 <= digits_val(s.take(k)),
        digits_val(s.take(k)) <= digits_val(s),
    decreases s.len(),
{
    if s.len() == 0 {
        assert(s.take(k) =~= s);
    } else if k == s.len() {
        assert(s.take(k) =~= s);
        lemma_digits_val_take_le(s.drop_last(), s.len() - 1);
        assert(s.drop_last().take(s.len() - 1) =~= s.drop_last());
    } else {
        assert(s.drop_last().take(k) =~= s.take(k));
        lemma_digits_val_take_le(s.drop_last(), k);
        assert(digits_val(s) == digits_val(s.drop_last()) * 10 + (s.last() - 48));
        assert(digits_val(s.drop_last()) * 10 >= digits_val(s.drop_last()));
    }
}

/// Appends the decimal digits of `v`, most significant first, to `out`.
fn push_digits(v: u64, out: &mut Vec<u8>)
    ensures
        final(out)@ == old(out)@ + dec_digits(v as nat),
    decreases v,
{
    if v < 10 {
        let ghost pre = out@;
        out.push(48 + v as u8);
        assert(pre.push((48 + v as nat) as u8) =~= pre + dec_digits(v as nat));
    } else {
        push_digits(v / 10, out);
        let ghost mid = out@;
        out.push(48 + (v % 10) as u8);
        assert(mid.push((48 + (v as nat) % 10) as u8) =~= old(out)@ + dec_digits(v as nat));
    }
}

/// The bytes the score store writes for `v`: decimal digits and a newline.
pub fn format_score(v: u64) -> (out: Vec<u8>)
    ensures
        out@ == format_score_spec(v),
{
    let mut out: Vec<u8> = Vec::new();
    push_digits(v, &mut out);
    assert(out@ =~= dec_digits(v as nat));
    out.push(10);
    out
}

/// Reads a stored score back: the decimal value of the trimmed text, and 0
/// on any malformed content, exactly as `parse_score_spec` states.
pub fn parse_score(bytes: &Vec<u8>) -> (v: u64)
    ensures
        v == parse_score_spec(bytes@),
{
    let ghost s = bytes@;
    let n = bytes.len();
    let mut a: usize = 0;
    proof {
        assert(s.skip(0) =~= s);
    }
    while a < n
        invariant_except_break
            0 <= a <= n,
            n == s.len(),
            s == bytes@,
            trim_front(s) == trim_front(s.skip(a as int)),
        ensures
            0 <= a <= n,
            n == s.len(),
            s == bytes@,
            trim_front(s) == trim_front(s.skip(a as int)),
            a < n ==> !is_ascii_ws(s[a as int]),
        decreases n - a,
    {
        let c = bytes[a];
        if !(c == 32 || c == 9 || c == 10 || c == 13) {
            break;
        }
        proof {
            assert(s.skip(a as int).len() > 0);
            assert(s.skip(a as int)[0] == s[a as int]);
            assert(s.skip(a as int).skip(1) =~= s.skip(a as int + 1));
        }
        a = a + 1;
    }
    proof {
        if a < n {
            assert(s.skip(a as int)[0] == s[a as int]);
            assert(!is_ascii_ws(s.skip(a as int)[0]));
        } else {
            assert(s.skip(a as int) =~= Seq::<u8>::empty());
        }
        assert(trim_front(s) == s.skip(a as int));
    }
    let ghost tf = s.skip(a as int);
    let mut b: usize = n;
    while b > a
        invariant_except_break
            a <= b <= n,
            n == s.len(),
            s == bytes@,
            tf == s.skip(a as int),
            trim_back(tf) == trim_back(s.subrange(a as int, b as int)),
        ensures
            a <= b <= n,
            n == s.len(),
            s == bytes@,
            tf == s.skip(a as int),
            trim_back(tf) == trim_back(s.subrange(a as int, b as int)),
            b > a ==> !is_ascii_ws(s[b - 1]),
        decreases b,
    {
        let c = bytes[b - 1];
        if !(c == 32 || c == 9 || c == 10 || c == 13) {
            break;
        }
        proof {
            let cur = s.subrange(a as int, b as int);
            assert(cur.len() > 0);
            assert(cur.last() == s[b - 1]);
            assert(cur.drop_last() =~= s.subrange(a as int, b as int - 1));
        }
        b = b - 1;
    }
    proof {
        assert(tf =~= s.subrange(a as int, n as int));
        let cur = s.subrange(a as int, b as int);
        if b > a {
            assert(cur.last() == s[b - 1]);
            assert(!is_ascii_ws(cur.last()));
        } else {
            assert(cur =~= Seq::<u8>::empty());
        }
        assert(trimmed(s) == s.subrange(a as int, b as int));
    }
    let ghost t = s.subrange(a as int, b as int);
    if a == b {
        return 0;
    }
    let mut acc: u64 = 0;
    let mut i: usize = a;
    while i < b
        invariant
            a <= i <= b <= n,
            n == s.len(),
            s == bytes@,
            a < b,
            t == s.subrange(a as int, b as int),
            trimmed(s) == t,
            forall|k: int| 0 <= k < i - a ==> is_ascii_digit(#[trigger] t[k]),
            acc == digits_val(t.take(i - a)),
        decreases b - i,
    {
        let c = bytes[i];
        assert(t[i - a] == c);
        if !(48 <= c && c <= 57) {
            assert(!all_digits(t));
            return 0;
        }
        let d = (c - 48) as u64;
        proof {
            assert(t.take(i - a + 1).drop_last() =~= t.take(i - a));
            assert(t.take(i - a + 1).last() == t[i - a]);
        }
        if acc > (u64::MAX - d) / 10 {
            // The digits read so far already exceed what a u64 can hold.
            proof {
                vstd::arithmetic::div_mod::lemma_fundamental_div_mod(
                    (u64::MAX - d) as int,
                    10,
                );
                assert(digits_val(t.take(i - a + 1)) == acc * 10 + d);
                assert(acc * 10 + d > u64::MAX);
                if all_digits(t) {
                    lemma_digits_val_take_le(t, i - a + 1);
                    assert(digits_val(t) > u64::MAX);
                }
            }
            return 0;
        }
        proof {
            vstd::arithmetic::div_mod::lemma_fundamental_div_mod((u64::MAX - d) as int, 10);
            assert(acc * 10 + d <= u64::MAX);
        }
        acc = acc * 10 + d;
        i = i + 1;
    }
    proof {
        assert(t.take(b - a) =~= t);
        assert(all_digits(t));
    }
    acc
}

/// Persistence round trip: storing a value and reading the stored bytes back
/// yields the same value.
pub proof fn lemma_score_round_trip(v: u64)
    ensures
        parse_score_spec(format_score_spec(v)) == v,
{
    lemma_dec_digits(v as nat);
    let d = dec_digits(v as nat);
    let w = format_score_spec(v);
    assert(w[0] == d[0]);
    assert(is_ascii_digit(d[0]));
    assert(trim_front(w) == w);
    assert(w.last() == 10);
    assert(w.drop_last() =~= d);
    assert(trim_back(w) == trim_back(d));
    assert(!is_ascii_ws(d.last()));
    assert(trim_back(d) == d);
    assert(trimmed(w) == d);
}

} // verus!
