//! Lowercase hexadecimal encoding of byte strings, and the decoder accepting
//! both cases. Hex keeps the record separators of the backup framing out of
//! record bodies, so the codec's round trip is proved here.

use vstd::prelude::*;

verus! {

/// The lowercase hex digit for a value below 16.
pub open spec fn hex_digit(n: u8) -> u8
    recommends
        n < 16,
{
    if n < 10 {
        (48 + n) as u8
    } else {
        (87 + n) as u8
    }
}

/// An ASCII hex digit, either case.
pub open spec fn is_hex_digit(d: u8) -> bool {
    ||| 48 <= d <= 57
    ||| 97 <= d <= 102
    ||| 65 <= d <= 70
}

/// The value of an ASCII hex digit.
pub open spec fn hex_val(d: u8) -> u8
    recommends
        is_hex_digit(d),
{
    if 48 <= d <= 57 {
        (d - 48) as u8
    } else if 97 <= d <= 102 {
        (d - 87) as u8
    } else {
        (d - 55) as u8
    }
}

/// The lowercase hex encoding of a byte string: two digits per byte.
pub open spec fn hex_of(s: Seq<u8>) -> Seq<u8>
    decreases s.len(),
{
    if s.len() == 0 {
        Seq::empty()
    } else {
        seq![hex_digit(s[0] / 16), hex_digit(s[0] % 16)] + hex_of(s.drop_first())
    }
}

/// A well-formed hex string: even length, all digits.
pub open spec fn valid_hex(s: Seq<u8>) -> bool {
    s.len() % 2 == 0 && forall|i: int| 0 <= i < s.len() ==> is_hex_digit(#[trigger] s[i])
}

/// The bytes a hex string denotes (meaningful on `valid_hex` inputs).
pub open spec fn unhex(s: Seq<u8>) -> Seq<u8>
    decreases s.len(),
{
    if s.len() < 2 {
        Seq::empty()
    } else {
        seq![(hex_val(s[0]) * 16 + hex_val(s[1])) as u8] + unhex(s.skip(2))
    }
}

/// Hex encodings are made of digits and have twice the length.
pub proof fn lemma_hex_of_shape(s: Seq<u8>)
    ensures
        hex_of(s).len() == 2 * s.len(),
        valid_hex(hex_of(s)),
    decreases s.len(),
{
    if s.len() > 0 {
        lemma_hex_of_shape(s.drop_first());
        let h = hex_of(s);
        assert forall|i: int| 0 <= i < h.len() implies is_hex_digit(#[trigger] h[i]) by {
            if i >= 2 {
                assert(h[i] == hex_of(s.drop_first())[i - 2]);
            }
        }
    }
}

/// Appending one byte appends its two digits.
pub proof fn lemma_hex_of_push(s: Seq<u8>, x: u8)
    ensures
        hex_of(s.push(x)) =~= hex_of(s) + seq![hex_digit(x / 16), hex_digit(x % 16)],
    decreases s.len(),
{
    if s.len() == 0 {
        let t = s.push(x);
        assert(t.len() == 1 && t[0] == x);
        assert(t.drop_first() =~= Seq::<u8>::empty());
        assert(hex_of(t.drop_first()).len() == 0) by {
            lemma_hex_of_shape(t.drop_first());
        }
        assert(hex_of(t) =~= seq![hex_digit(x / 16), hex_digit(x % 16)] + hex_of(t.drop_first()));
        assert(hex_of(s) =~= Seq::<u8>::empty());
    } else {
        assert(s.push(x).drop_first() =~= s.drop_first().push(x));
        lemma_hex_of_push(s.drop_first(), x);
        assert(s.push(x)[0] == s[0]);
    }
}

/// Decoding a hex encoding gives back the bytes.
pub proof fn lemma_unhex_hex_of(s: Seq<u8>)
    ensures
        unhex(hex_of(s)) =~= s,
    decreases s.len(),
{
    if s.len() > 0 {
        lemma_unhex_hex_of(s.drop_first());
        lemma_hex_of_shape(s.drop_first());
        let h = hex_of(s);
        let b = s[0];
        assert(h[0] == hex_digit(b / 16) && h[1] == hex_digit(b % 16));
        assert(hex_val(hex_digit(b / 16)) == b / 16);
        assert(hex_val(hex_digit(b % 16)) == b % 16);
        assert(h.skip(2) =~= hex_of(s.drop_first()));
        assert(hex_val(h[0]) * 16 + hex_val(h[1]) == b);
    }
}

/// Encode bytes as lowercase hex.
pub fn hex_encode(data: &Vec<u8>) -> (r: Vec<u8>)
    ensures
        r@ == hex_of(data@),
{
    let n = data.len();
    let mut r: Vec<u8> = Vec::new();
    let mut i: usize = 0;
    while i < n
        invariant
            n == data@.len(),
            i <= n,
            r@ == hex_of(data@.take(i as int)),
        decreases n - i,
    {
        let b = data[i];
        proof {
            lemma_hex_of_push(data@.take(i as int), b);
            assert(data@.take(i + 1) =~= data@.take(i as int).push(b));
        }
        r.push(if b / 16 < 10 {
            48 + b / 16
        } else {
            87 + b / 16
        });
        r.push(if b % 16 < 10 {
            48 + b % 16
        } else {
            87 + b % 16
        });
        i = i + 1;
    }
    proof {
        assert(data@.take(n as int) =~= data@);
    }
    r
}

/// Decode a hex string; `None` exactly on ill-formed input.
pub fn hex_decode(data: &Vec<u8>) -> (r: Option<Vec<u8>>)
    ensures
        r is Some <==> valid_hex(data@),
        r is Some ==> r->0@ == unhex(data@),
{
    let n = data.len();
    if n % 2 != 0 {
        return None;
    }
    let mut r: Vec<u8> = Vec::new();
    let mut i: usize = 0;
    while i < n
        invariant
            n == data@.len(),
            n % 2 == 0,
            i <= n,
            i % 2 == 0,
            forall|j: int| 0 <= j < i ==> is_hex_digit(#[trigger] data@[j]),
            r@ =~= unhex(data@.take(i as int)),
        decreases n - i,
    {
        let hi = data[i];
        let lo = data[i + 1];
        let hv: u8 = if 48 <= hi && hi <= 57 {
            hi - 48
        } else if 97 <= hi && hi <= 102 {
            hi - 87
        } else if 65 <= hi && hi <= 70 {
            hi - 55
        } else {
            return None;
        };
        let lv: u8 = if 48 <= lo && lo <= 57 {
            lo - 48
        } else if 97 <= lo && lo <= 102 {
            lo - 87
        } else if 65 <= lo && lo <= 70 {
            lo - 55
        } else {
            return None;
        };
        proof {
            lemma_unhex_take_step(data@, i as int);
        }
        r.push(hv * 16 + lv);
        i = i + 2;
    }
    proof {
        assert(data@.take(n as int) =~= data@);
    }
    Some(r)
}

/// Decoding distributes over concatenation at even positions.
pub proof fn lemma_unhex_concat(a: Seq<u8>, b: Seq<u8>)
    requires
        a.len() % 2 == 0,
    ensures
        unhex(a + b) =~= unhex(a) + unhex(b),
    decreases a.len(),
{
    if a.len() == 0 {
        assert(a + b =~= b);
        assert(unhex(a) =~= Seq::<u8>::empty());
    } else {
        assert((a + b)[0] == a[0] && (a + b)[1] == a[1]);
        assert((a + b).skip(2) =~= a.skip(2) + b);
        lemma_unhex_concat(a.skip(2), b);
    }
}

/// Taking two more digits decodes one more byte.
proof fn lemma_unhex_take_step(s: Seq<u8>, i: int)
    requires
        0 <= i,
        i + 2 <= s.len(),
        i % 2 == 0,
    ensures
        unhex(s.take(i + 2)) =~= unhex(s.take(i)).push(
            (hex_val(s[i]) * 16 + hex_val(s[i + 1])) as u8,
        ),
{
    let pair = seq![s[i], s[i + 1]];
    assert(s.take(i + 2) =~= s.take(i) + pair);
    lemma_unhex_concat(s.take(i), pair);
    assert(pair.len() == 2 && pair[0] == s[i] && pair[1] == s[i + 1]);
    assert(pair.skip(2) =~= Seq::<u8>::empty());
    assert(unhex(pair) =~= seq![(hex_val(pair[0]) * 16 + hex_val(pair[1])) as u8] + unhex(
        pair.skip(2),
    ));
    assert(unhex(pair.skip(2)) =~= Seq::<u8>::empty());
    assert(unhex(pair) =~= seq![(hex_val(s[i]) * 16 + hex_val(s[i + 1])) as u8]);
    assert(unhex(s.take(i)) + unhex(pair) =~= unhex(s.take(i)).push(
        (hex_val(s[i]) * 16 + hex_val(s[i + 1])) as u8,
    ));
}

} // verus!
