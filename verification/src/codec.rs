use vstd::prelude::*;

use vstd::string::StringSliceAdditionalSpecFns;

use crate::buffer::BufAdd;
use crate::errors::TagError;

verus! {

/// The base-54 alphabet, ordered: 25 lower-case letters (no `l`), 24
/// upper-case letters (no `I`, no `O`), and the digits `3 4 6 8 9`.
/// Index 0 is the zero digit.
pub const BASE54: [u8; 54] = [
    // a    b    c    d    e    f    g    h    i    j    k    m    n    o
    97, 98, 99, 100, 101, 102, 103, 104, 105, 106, 107, 109, 110, 111,
    // p    q    r    s    t    u    v    w    x    y    z    A    B    C
    112, 113, 114, 115, 116, 117, 118, 119, 120, 121, 122, 65, 66, 67,
    // D    E    F    G    H    J    K    L    M    N    P    Q    R    S
    68, 69, 70, 71, 72, 74, 75, 76, 77, 78, 80, 81, 82, 83,
    // T    U    V    W    X    Y    Z    3    4    6    8    9
    84, 85, 86, 87, 88, 89, 90, 51, 52, 54, 56, 57,
];

/// The alphabet as a byte sequence.
pub open spec fn alphabet54() -> Seq<u8> {
    BASE54@
}

/// The base-54 digits of `n`, most significant first; each digit is an
/// index into the alphabet.  `0` has the single digit `0`.
pub open spec fn encode54(n: int) -> Seq<int>
    decreases n,
{
    if n < 54 {
        seq![n]
    } else {
        encode54(n / 54).push(n % 54)
    }
}

/// The value that a digit sequence (most significant first) denotes in
/// base 54.
pub open spec fn value54(ds: Seq<int>) -> int
    decreases ds.len(),
{
    if ds.len() == 0 {
        0
    } else {
        value54(ds.drop_last()) * 54 + ds.last()
    }
}

/// The digit characters of `n` under alphabet `a`, most significant first.
pub open spec fn render54(n: int, a: Seq<u8>) -> Seq<u8> {
    encode54(n).map(|i: int, d: int| a[d])
}

/// Whether byte `b` occurs in the alphabet `a`.
pub open spec fn in_alpha(a: Seq<u8>, b: u8) -> bool {
    exists|j: int| 0 <= j < a.len() && a[j] == b
}

/// Whether every byte of `bs` occurs in the alphabet `a`.
pub open spec fn all_in_alpha(a: Seq<u8>, bs: Seq<u8>) -> bool {
    forall|i: int| 0 <= i < bs.len() ==> in_alpha(a, bs[i])
}

/// The first index at which `b` occurs in `a`, or `-1` if it does not.
pub open spec fn first_index(a: Seq<u8>, b: u8) -> int
    decreases a.len(),
{
    if a.len() == 0 {
        -1
    } else if a[0] == b {
        0
    } else {
        let r = first_index(a.drop_first(), b);
        if r < 0 {
            -1
        } else {
            r + 1
        }
    }
}

/// The digit value of each byte of `bs` under alphabet `a`.
pub open spec fn digit_indices(a: Seq<u8>, bs: Seq<u8>) -> Seq<int> {
    bs.map(|i: int, b: u8| first_index(a, b))
}

pub proof fn lemma_first_index_found(a: Seq<u8>, b: u8, j: int)
    requires
        0 <= j < a.len(),
        a[j] == b,
        forall|jj: int| 0 <= jj < j ==> a[jj] != b,
    ensures
        first_index(a, b) == j,
        in_alpha(a, b),
    decreases j,
{
    if j == 0 {
    } else {
        assert(a[0] != b);
        assert(a.drop_first()[j - 1] == b);
        assert forall|jj: int| 0 <= jj < j - 1 implies a.drop_first()[jj] != b by {
            assert(a.drop_first()[jj] == a[jj + 1]);
        }
        lemma_first_index_found(a.drop_first(), b, j - 1);
    }
}

pub proof fn lemma_first_index_none(a: Seq<u8>, b: u8)
    requires
        forall|jj: int| 0 <= jj < a.len() ==> a[jj] != b,
    ensures
        first_index(a, b) == -1,
        !in_alpha(a, b),
    decreases a.len(),
{
    if a.len() == 0 {
    } else {
        assert forall|jj: int| 0 <= jj < a.len() - 1 implies a.drop_first()[jj] != b by {
            assert(a.drop_first()[jj] == a[jj + 1]);
        }
        lemma_first_index_none(a.drop_first(), b);
    }
}

/// The digits of a non-negative number: at least one of them, each in
/// `[0, 54)`, one digit exactly for numbers under 54, and evaluating the
/// digits gives the number back.
pub proof fn lemma_encode54(n: int)
    requires
        n >= 0,
    ensures
        1 <= encode54(n).len(),
        forall|i: int| 0 <= i < encode54(n).len() ==> 0 <= #[trigger] encode54(n)[i] < 54,
        value54(encode54(n)) == n,
        encode54(n).len() == 1 <==> n < 54,
    decreases n,
{
    if n < 54 {
        assert(encode54(n) =~= seq![n]);
        assert(seq![n].drop_last() =~= Seq::<int>::empty());
        assert(value54(Seq::<int>::empty()) == 0);
        assert(seq![n].last() == n);
        assert(value54(seq![n]) == n);
    } else {
        lemma_encode54(n / 54);
        let e = encode54(n / 54);
        assert(encode54(n) == e.push(n % 54));
        assert(e.push(n % 54).drop_last() =~= e);
        assert(value54(encode54(n)) == value54(e) * 54 + n % 54);
        assert(value54(encode54(n)) == n);
        assert forall|i: int| 0 <= i < encode54(n).len() implies 0 <= #[trigger] encode54(n)[i]
            < 54 by {
            if i < e.len() {
                assert(encode54(n)[i] == e[i]);
            } else {
                assert(encode54(n)[i] == n % 54);
            }
        }
    }
}

pub proof fn lemma_value54_nonneg(ds: Seq<int>)
    requires
        forall|i: int| 0 <= i < ds.len() ==> #[trigger] ds[i] >= 0,
    ensures
        value54(ds) >= 0,
    decreases ds.len(),
{
    if ds.len() > 0 {
        assert forall|i: int| 0 <= i < ds.drop_last().len() implies #[trigger] ds.drop_last()[i]
            >= 0 by {
            assert(ds.drop_last()[i] == ds[i]);
        }
        lemma_value54_nonneg(ds.drop_last());
    }
}

/// Appending digits to a non-negative digit string never shrinks its value.
pub proof fn lemma_value54_prefix_le(ds: Seq<int>, k: int)
    requires
        forall|i: int| 0 <= i < ds.len() ==> #[trigger] ds[i] >= 0,
        0 <= k <= ds.len(),
    ensures
        value54(ds.take(k)) <= value54(ds),
    decreases ds.len() - k,
{
    if k == ds.len() {
        assert(ds.take(k) =~= ds);
    } else {
        assert(ds.take(k + 1).drop_last() =~= ds.take(k));
        assert(ds.take(k + 1).last() == ds[k]);
        assert forall|i: int| 0 <= i < ds.take(k).len() implies #[trigger] ds.take(k)[i] >= 0 by {
            assert(ds.take(k)[i] == ds[i]);
        }
        lemma_value54_nonneg(ds.take(k));
        assert(value54(ds.take(k + 1)) == value54(ds.take(k)) * 54 + ds[k]);
        assert(value54(ds.take(k)) <= value54(ds.take(k + 1)));
        lemma_value54_prefix_le(ds, k + 1);
    }
}

proof fn lemma_reverse_push(s: Seq<u8>, x: u8)
    ensures
        s.push(x).reverse() == seq![x] + s.reverse(),
{
    let l = s.push(x).reverse();
    let r = seq![x] + s.reverse();
    assert(l.len() == r.len());
    assert forall|i: int| 0 <= i < l.len() implies l[i] == r[i] by {
        if i == 0 {
            assert(l[0] == s.push(x)[s.len() as int]);
        } else {
            assert(l[i] == s.push(x)[s.len() - i]);
            assert(r[i] == s.reverse()[i - 1]);
            assert(s.reverse()[i - 1] == s[s.len() - i]);
        }
    }
    assert(l =~= r);
}

proof fn lemma_render_step(n: int, a: Seq<u8>)
    requires
        n >= 54,
    ensures
        render54(n, a) == render54(n / 54, a).push(a[n % 54]),
{
    assert(encode54(n) == encode54(n / 54).push(n % 54));
    assert(render54(n, a) =~= render54(n / 54, a).push(a[n % 54]));
}

/// Converts an integer to a digit string over the given 54-symbol alphabet,
/// writing the digits most significant first into the sink.  Writing stops
/// at the sink's capacity: the digits that fit are written and
/// `BufferOverflowError` comes back.
pub fn base_x<B: BufAdd>(buf: &mut B, num: i32, alphabet: &[u8; 54]) -> (r: Result<(), TagError>)
    requires
        num >= 0,
    ensures
        ({
            let out = render54(num as int, alphabet@);
            &&& (r is Ok <==> (old(buf).capacity() is None || old(buf).contents().len()
                + out.len() <= old(buf).capacity()->Some_0))
            &&& (r is Ok ==> final(buf).contents() == old(buf).contents() + out)
            &&& (r is Err ==> r == Err::<(), TagError>(TagError::BufferOverflowError) && old(
                buf,
            ).capacity() is Some && final(buf).contents() == old(buf).contents() + out.take(
                if old(buf).capacity()->Some_0 >= old(buf).contents().len() {
                    old(buf).capacity()->Some_0 - old(buf).contents().len()
                } else {
                    0
                },
            ))
            &&& final(buf).capacity() == old(buf).capacity()
        }),
{
    let ghost out = render54(num as int, alphabet@);
    proof {
        lemma_encode54(num as int);
    }
    let mut digits: Vec<u8> = Vec::new();
    if num == 0 {
        digits.push(alphabet[0]);
        proof {
            assert(encode54(0) =~= seq![0int]);
            assert(out =~= seq![alphabet@[0]]);
            assert(digits@ =~= seq![alphabet@[0]]);
            assert(digits@.reverse() =~= out);
        }
    } else {
        let mut n = num;
        while n > 0
            invariant
                0 <= n,
                num > 0,
                out == render54(num as int, alphabet@),
                n > 0 ==> out == render54(n as int, alphabet@) + digits@.reverse(),
                n == 0 ==> out == digits@.reverse(),
            decreases n,
        {
            let rem = (n % 54) as usize;
            let ghost prev = digits@;
            let ghost np = n as int;
            digits.push(alphabet[rem]);
            n = n / 54;
            proof {
                lemma_reverse_push(prev, alphabet@[rem as int]);
                if np >= 54 {
                    lemma_render_step(np, alphabet@);
                    let x = alphabet@[rem as int];
                    let h = render54(np / 54, alphabet@);
                    assert(h + seq![x] + prev.reverse() =~= h.push(x) + prev.reverse());
                    assert(h + (seq![x] + prev.reverse()) =~= h + seq![x] + prev.reverse());
                    assert(out == render54(n as int, alphabet@) + digits@.reverse());
                } else {
                    assert(n == 0);
                    assert(encode54(np) =~= seq![np]);
                    assert(render54(np, alphabet@) =~= seq![alphabet@[rem as int]]);
                    assert(out =~= seq![alphabet@[rem as int]] + prev.reverse());
                    assert(out == digits@.reverse());
                }
            }
        }
    }
    proof {
        assert(digits@.reverse() == out);
        assert(digits@.len() == out.len());
    }
    let len = digits.len();
    let mut i: usize = 0;
    while i < len
        invariant
            i <= len,
            len == digits@.len(),
            digits@.reverse() == out,
            out == render54(num as int, alphabet@),
            out.len() == len,
            buf.contents() == old(buf).contents() + out.take(i as int),
            buf.capacity() == old(buf).capacity(),
            old(buf).capacity() is Some && i > 0 ==> old(buf).contents().len() + i <= old(
                buf,
            ).capacity()->Some_0,
        decreases len - i,
    {
        let c = digits[len - 1 - i];
        proof {
            assert(digits@.reverse()[i as int] == digits@[len - 1 - i]);
            assert(c == out[i as int]);
        }
        let ghost pre = buf.contents();
        match buf.add(c) {
            Ok(()) => {
                proof {
                    assert(buf.contents() =~= old(buf).contents() + out.take(i + 1));
                }
            },
            Err(e) => {
                proof {
                    assert(old(buf).capacity() is Some);
                    let cap = old(buf).capacity()->Some_0 as int;
                    let base = old(buf).contents().len() as int;
                    assert(pre.len() >= cap);
                    assert(pre.len() == base + i);
                    if i > 0 {
                        assert(base + i <= cap);
                        assert(base + i == cap);
                        assert(out.take(if cap >= base {
                            cap - base
                        } else {
                            0
                        }) =~= out.take(i as int));
                    } else {
                        assert(base >= cap);
                        assert(out.take(if cap >= base {
                            cap - base
                        } else {
                            0
                        }) =~= out.take(0).take(if cap == base {
                            0
                        } else {
                            0
                        }));
                        assert(buf.contents() =~= old(buf).contents() + out.take(0));
                    }
                    assert(base + out.len() > cap);
                }
                return Err(e);
            },
        }
        i = i + 1;
    }
    proof {
        assert(out.take(len as int) =~= out);
        if old(buf).capacity() is Some {
            assert(len >= 1);
            assert(old(buf).contents().len() + len <= old(buf).capacity()->Some_0);
        }
    }
    Ok(())
}

/// Converts a base-54 digit string back to the integer it denotes.
/// A character outside the alphabet gives `InvalidCharacterError`; a
/// digit string whose value does not fit an `i32` gives
/// `ValueOverflowError`.
pub fn rev_x(base_str: &str, alphabet: &str) -> (r: Result<i32, TagError>)
    requires
        alphabet.spec_bytes().len() == 54,
    ensures
        ({
            let a = alphabet.spec_bytes();
            let bs = base_str.spec_bytes();
            &&& (r is Ok <==> all_in_alpha(a, bs) && value54(digit_indices(a, bs)) <= i32::MAX)
            &&& (r is Ok ==> r->Ok_0 == value54(digit_indices(a, bs)))
            &&& (r == Err::<i32, TagError>(TagError::InvalidCharacterError) <==> !all_in_alpha(
                a,
                bs,
            ))
            &&& (r == Err::<i32, TagError>(TagError::ValueOverflowError) <==> all_in_alpha(a, bs)
                && value54(digit_indices(a, bs)) > i32::MAX)
        }),
{
    let abs = alphabet.as_bytes();
    let bss = base_str.as_bytes();
    let ghost a = alphabet.spec_bytes();
    let ghost bs = base_str.spec_bytes();
    let ghost ids = digit_indices(a, bs);
    let mut digits: Vec<u8> = Vec::new();
    let mut i: usize = 0;
    while i < bss.len()
        invariant
            a == alphabet.spec_bytes(),
            bs == base_str.spec_bytes(),
            abs@ == a,
            bss@ == bs,
            a.len() == 54,
            ids == digit_indices(a, bs),
            i <= bs.len(),
            digits@.len() == i,
            forall|k: int| 0 <= k < i ==> in_alpha(a, bs[k]),
            forall|k: int| 0 <= k < i ==> #[trigger] digits@[k] as int == ids[k],
            forall|k: int| 0 <= k < i ==> #[trigger] digits@[k] < 54,
        decreases bss.len() - i,
    {
        let b = bss[i];
        let mut idx: usize = 54;
        let mut j: usize = 0;
        while j < 54
            invariant
                a.len() == 54,
                abs@ == a,
                j <= 54,
                idx == 54 || (idx < j && a[idx as int] == b && forall|jj: int|
                    0 <= jj < idx ==> a[jj] != b),
                idx == 54 ==> forall|jj: int| 0 <= jj < j ==> a[jj] != b,
            decreases 54 - j,
        {
            if idx == 54 && abs[j] == b {
                idx = j;
            }
            j = j + 1;
        }
        if idx == 54 {
            proof {
                lemma_first_index_none(a, b);
                assert(!in_alpha(a, bs[i as int]));
                assert(!all_in_alpha(a, bs));
            }
            return Err(TagError::InvalidCharacterError);
        }
        proof {
            lemma_first_index_found(a, b, idx as int);
            assert(ids[i as int] == first_index(a, bs[i as int]));
        }
        digits.push(idx as u8);
        i = i + 1;
    }
    proof {
        assert(all_in_alpha(a, bs));
        assert forall|k: int| 0 <= k < ids.len() implies #[trigger] ids[k] >= 0 && ids[k] < 54 by {
            assert(digits@[k] as int == ids[k]);
            assert(digits@[k] < 54);
        }
    }
    let n = digits.len();
    let mut num: i32 = 0;
    let mut k: usize = 0;
    while k < n
        invariant
            a == alphabet.spec_bytes(),
            bs == base_str.spec_bytes(),
            n == digits@.len(),
            n == ids.len(),
            bs.len() == n,
            a.len() == 54,
            ids == digit_indices(a, bs),
            all_in_alpha(a, bs),
            forall|t: int| 0 <= t < n ==> #[trigger] digits@[t] as int == ids[t],
            forall|t: int| 0 <= t < n ==> #[trigger] ids[t] >= 0,
            forall|t: int| 0 <= t < n ==> #[trigger] ids[t] < 54,
            k <= n,
            num >= 0,
            num as int == value54(ids.take(k as int)),
        decreases n - k,
    {
        let d = digits[k] as i32;
        proof {
            assert(d as int == ids[k as int]);
            assert(ids.take(k + 1).drop_last() =~= ids.take(k as int));
            assert(value54(ids.take(k + 1)) == num as int * 54 + d);
        }
        if num > (i32::MAX - d) / 54 {
            proof {
                let q = (i32::MAX - d) as int / 54;
                assert(q * 54 + ((i32::MAX - d) as int % 54) == (i32::MAX - d) as int);
                assert(num as int * 54 + d > i32::MAX);
                lemma_value54_prefix_le(ids, k + 1);
                assert(value54(ids) > i32::MAX);
            }
            return Err(TagError::ValueOverflowError);
        }
        proof {
            let q = (i32::MAX - d) as int / 54;
            assert(q * 54 + ((i32::MAX - d) as int % 54) == (i32::MAX - d) as int);
            assert(num as int * 54 + d <= i32::MAX);
        }
        num = num * 54 + d;
        k = k + 1;
    }
    proof {
        assert(ids.take(n as int) =~= ids);
    }
    Ok(num)
}

/// Decoding inverts encoding: under a 54-symbol alphabet with distinct
/// symbols, the digit string of any non-negative `n` reads back as `n`.
pub proof fn lemma_round_trip(n: int, a: Seq<u8>)
    requires
        0 <= n,
        a.len() == 54,
        forall|i: int, j: int| 0 <= i < j < 54 ==> a[i] != a[j],
    ensures
        all_in_alpha(a, render54(n, a)),
        value54(digit_indices(a, render54(n, a))) == n,
{
    lemma_encode54(n);
    let e = encode54(n);
    let rb = render54(n, a);
    assert(rb.len() == e.len());
    assert forall|i: int| 0 <= i < rb.len() implies in_alpha(a, rb[i]) && #[trigger] digit_indices(
        a,
        rb,
    )[i] == e[i] by {
        assert(rb[i] == a[e[i]]);
        assert forall|jj: int| 0 <= jj < e[i] implies #[trigger] a[jj] != a[e[i]] by {}
        lemma_first_index_found(a, a[e[i]], e[i]);
    }
    assert(digit_indices(a, rb) =~= e);
}

/// Zero encodes as a single character: the alphabet's zero digit.
pub proof fn lemma_zero_encoding()
    ensures
        render54(0, alphabet54()) == seq![alphabet54()[0]],
{
    assert(encode54(0) =~= seq![0int]);
    assert(render54(0, alphabet54()) =~= seq![alphabet54()[0]]);
}

/// The fixed alphabet has 54 pairwise distinct ASCII symbols.
pub proof fn lemma_base54_wf()
    ensures
        alphabet54().len() == 54,
        forall|i: int, j: int| 0 <= i < j < 54 ==> alphabet54()[i] != alphabet54()[j],
        forall|i: int| 0 <= i < 54 ==> alphabet54()[i] < 128,
{
    assert(alphabet54().len() == 54);
    assert forall|i: int, j: int| 0 <= i < j < 54 implies alphabet54()[i] != alphabet54()[j] by {
        assert(alphabet54()[i] == BASE54@[i]);
    }
    assert forall|i: int| 0 <= i < 54 implies alphabet54()[i] < 128 by {
        assert(alphabet54()[i] == BASE54@[i]);
    }
}

} // verus!
