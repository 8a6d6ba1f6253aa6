//! The backup payload framing: a concatenation of records, each
//! `hex(key) "," hex(value) ";"` in ASCII. Hex guarantees that neither
//! separator occurs inside a record body, which is what makes the framing
//! parseable without length prefixes; the decoder is specified completely by
//! a recursive parser, and decoding an encoding is proved to give the entries
//! back.

use vstd::prelude::*;

verus! {

use crate::hexcodec::{
    hex_of,
    unhex,
    valid_hex,
    is_hex_digit,
    hex_encode,
    hex_decode,
    lemma_hex_of_shape,
    lemma_unhex_hex_of,
};

/// One encoded record.
pub open spec fn encode_record(k: Seq<u8>, v: Seq<u8>) -> Seq<u8> {
    hex_of(k) + seq![44u8] + hex_of(v) + seq![59u8]
}

/// The whole payload: records concatenated in order.
pub open spec fn encode_records(es: Seq<(Seq<u8>, Seq<u8>)>) -> Seq<u8>
    decreases es.len(),
{
    if es.len() == 0 {
        Seq::empty()
    } else {
        encode_records(es.drop_last()) + encode_record(es.last().0, es.last().1)
    }
}

/// Unfolding the payload from the front.
pub proof fn lemma_encode_records_first(es: Seq<(Seq<u8>, Seq<u8>)>)
    requires
        es.len() > 0,
    ensures
        encode_records(es) =~= encode_record(es[0].0, es[0].1) + encode_records(es.drop_first()),
    decreases es.len(),
{
    if es.len() == 1 {
        assert(es.drop_last() =~= Seq::<(Seq<u8>, Seq<u8>)>::empty());
        assert(es.drop_first() =~= Seq::<(Seq<u8>, Seq<u8>)>::empty());
        assert(encode_records(es.drop_last()) + encode_record(es.last().0, es.last().1)
            =~= encode_record(es[0].0, es[0].1));
    } else {
        lemma_encode_records_first(es.drop_last());
        assert(es.drop_last()[0] == es[0]);
        assert(es.drop_last().drop_first() =~= es.drop_first().drop_last());
        assert(es.drop_first().last() == es.last());
        assert(encode_records(es) =~= encode_records(es.drop_last()) + encode_record(
            es.last().0,
            es.last().1,
        ));
    }
}

/// The index of the first occurrence of `b` in `s` at or after `i`.
pub open spec fn find_byte_from(s: Seq<u8>, b: u8, i: int) -> Option<int>
    decreases s.len() - i,
{
    if i < 0 || i >= s.len() {
        None
    } else if s[i] == b {
        Some(i)
    } else {
        find_byte_from(s, b, i + 1)
    }
}

/// What `find_byte_from` returns, spelled out.
pub proof fn lemma_find_byte_from(s: Seq<u8>, b: u8, i: int)
    requires
        0 <= i,
    ensures
        match find_byte_from(s, b, i) {
            Some(j) => i <= j < s.len() && s[j] == b && forall|m: int|
                i <= m < j ==> s[m] != b,
            None => forall|m: int| i <= m < s.len() ==> s[m] != b,
        },
    decreases s.len() - i,
{
    if i < s.len() && s[i] != b {
        lemma_find_byte_from(s, b, i + 1);
    }
}

/// The witness direction: a first occurrence pins `find_byte_from` down.
pub proof fn lemma_find_byte_from_exact(s: Seq<u8>, b: u8, i: int, j: int)
    requires
        0 <= i <= j < s.len(),
        s[j] == b,
        forall|m: int| i <= m < j ==> s[m] != b,
    ensures
        find_byte_from(s, b, i) == Some(j),
{
    lemma_find_byte_from(s, b, i);
    match find_byte_from(s, b, i) {
        Some(j2) => {
            if j2 < j {
                assert(s[j2] != b);
            }
            if j2 > j {
                assert(s[j] != b);
            }
        },
        None => {
            assert(s[j] != b);
        },
    }
}

/// The payload grammar, parsed from position `i`: a sequence of records, or
/// nothing at all if what remains is not an exact concatenation of records
/// with well-formed hex bodies.
pub open spec fn parse_from(s: Seq<u8>, i: int) -> Option<Seq<(Seq<u8>, Seq<u8>)>>
    decreases s.len() - i,
{
    if i < 0 || i >= s.len() {
        Some(Seq::empty())
    } else {
        match find_byte_from(s, 59u8, i) {
            None => None,
            Some(j) => match find_byte_from(s, 44u8, i) {
                None => None,
                Some(c) => if i <= c && c < j && j < s.len() && valid_hex(s.subrange(i, c))
                    && valid_hex(s.subrange(c + 1, j)) {
                    match parse_from(s, j + 1) {
                        None => None,
                        Some(rest) => Some(
                            seq![(unhex(s.subrange(i, c)), unhex(s.subrange(c + 1, j)))] + rest,
                        ),
                    }
                } else {
                    None
                },
            },
        }
    }
}

/// The records of a payload, from the start.
pub open spec fn parse_records(s: Seq<u8>) -> Option<Seq<(Seq<u8>, Seq<u8>)>> {
    parse_from(s, 0)
}

/// Hex digits are neither separator nor terminator.
proof fn lemma_hex_digit_not_separator(d: u8)
    requires
        is_hex_digit(d),
    ensures
        d != 44,
        d != 59,
{
}

/// Parsing an encoding from any aligned position yields the entries.
proof fn lemma_parse_encode_at(s: Seq<u8>, i: int, es: Seq<(Seq<u8>, Seq<u8>)>)
    requires
        0 <= i <= s.len(),
        s.skip(i) =~= encode_records(es),
    ensures
        parse_from(s, i) == Some(es),
    decreases es.len(),
{
    if es.len() == 0 {
        assert(encode_records(es).len() == 0);
        assert(i == s.len());
        assert(parse_from(s, i) == Some(Seq::<(Seq<u8>, Seq<u8>)>::empty()));
        assert(Seq::<(Seq<u8>, Seq<u8>)>::empty() =~= es);
    } else {
        lemma_encode_records_first(es);
        let k0 = es[0].0;
        let v0 = es[0].1;
        let hk = hex_of(k0);
        let hv = hex_of(v0);
        lemma_hex_of_shape(k0);
        lemma_hex_of_shape(v0);
        let rec = encode_record(k0, v0);
        let rest = encode_records(es.drop_first());
        assert(s.skip(i) =~= rec + rest);
        let reclen = rec.len() as int;
        assert(reclen == hk.len() + hv.len() + 2);
        assert(i + reclen <= s.len()) by {
            assert(s.skip(i).len() == s.len() - i);
        }
        let c = i + hk.len() as int;
        let j = c + 1 + hv.len() as int;
        assert(forall|m: int| 0 <= m < reclen ==> s[i + m] == #[trigger] rec[m]) by {
            assert(forall|m: int| 0 <= m < reclen ==> #[trigger] rec[m] == s.skip(i)[m]);
        }
        assert(forall|m: int| 0 <= m < hk.len() ==> rec[m] == #[trigger] hk[m]);
        assert(rec[hk.len() as int] == 44u8);
        assert(forall|m: int| 0 <= m < hv.len() ==> rec[hk.len() + 1 + m] == #[trigger] hv[m]);
        assert(rec[(hk.len() + 1 + hv.len()) as int] == 59u8);
        assert(s[c] == 44u8);
        assert(s[j] == 59u8);
        // No terminator before `j`, no separator before `c`.
        assert forall|m: int| i <= m < j implies s[m] != 59u8 by {
            let o = m - i;
            if o < hk.len() {
                lemma_hex_digit_not_separator(hk[o]);
            } else if o == hk.len() {
            } else {
                lemma_hex_digit_not_separator(hv[o - hk.len() - 1]);
            }
        }
        assert forall|m: int| i <= m < c implies s[m] != 44u8 by {
            lemma_hex_digit_not_separator(hk[m - i]);
        }
        lemma_find_byte_from_exact(s, 59u8, i, j);
        lemma_find_byte_from_exact(s, 44u8, i, c);
        assert(s.subrange(i, c) =~= hk);
        assert(s.subrange(c + 1, j) =~= hv);
        lemma_unhex_hex_of(k0);
        lemma_unhex_hex_of(v0);
        assert(s.skip(j + 1) =~= rest) by {
            assert forall|m: int| 0 <= m < rest.len() implies #[trigger] s.skip(j + 1)[m]
                == rest[m] by {
                assert(s.skip(j + 1)[m] == s[j + 1 + m]);
                assert(s[j + 1 + m] == s.skip(i)[reclen + m]);
                assert((rec + rest)[reclen + m] == rest[m]);
            }
        }
        lemma_parse_encode_at(s, j + 1, es.drop_first());
        assert(seq![(unhex(s.subrange(i, c)), unhex(s.subrange(c + 1, j)))] + es.drop_first()
            =~= es);
    }
}

/// Decoding an encoded payload yields exactly the entries encoded.
pub proof fn lemma_parse_records_round_trip(es: Seq<(Seq<u8>, Seq<u8>)>)
    ensures
        parse_records(encode_records(es)) == Some(es),
{
    let s = encode_records(es);
    assert(s.skip(0) =~= s);
    lemma_parse_encode_at(s, 0, es);
}

/// Append all of `src` to `dst`.
pub fn push_all(dst: &mut Vec<u8>, src: &Vec<u8>)
    ensures
        final(dst)@ =~= old(dst)@ + src@,
{
    let n = src.len();
    let mut i: usize = 0;
    while i < n
        invariant
            n == src@.len(),
            i <= n,
            dst@ =~= old(dst)@ + src@.take(i as int),
        decreases n - i,
    {
        dst.push(src[i]);
        proof {
            assert(old(dst)@ + src@.take(i + 1) =~= (old(dst)@ + src@.take(i as int)).push(
                src@[i as int],
            ));
        }
        i = i + 1;
    }
    proof {
        assert(src@.take(n as int) =~= src@);
    }
}

/// A clone of `data[from..to]`.
pub fn copy_range(data: &Vec<u8>, from: usize, to: usize) -> (r: Vec<u8>)
    requires
        from <= to <= data@.len(),
    ensures
        r@ =~= data@.subrange(from as int, to as int),
{
    let mut r: Vec<u8> = Vec::new();
    let mut i: usize = from;
    while i < to
        invariant
            from <= i <= to <= data@.len(),
            r@ =~= data@.subrange(from as int, i as int),
        decreases to - i,
    {
        r.push(data[i]);
        proof {
            assert(data@.subrange(from as int, i + 1) =~= data@.subrange(from as int, i as int)
                .push(data@[i as int]));
        }
        i = i + 1;
    }
    r
}

/// The entry sequence a vector of byte-pair entries denotes.
pub open spec fn entries_view(entries: Seq<(Vec<u8>, Vec<u8>)>) -> Seq<(Seq<u8>, Seq<u8>)> {
    entries.map_values(|p: (Vec<u8>, Vec<u8>)| (p.0@, p.1@))
}

/// Encode entries as the framed payload.
pub fn encode_payload(entries: &Vec<(Vec<u8>, Vec<u8>)>) -> (r: Vec<u8>)
    ensures
        r@ == encode_records(entries_view(entries@)),
{
    let n = entries.len();
    let mut r: Vec<u8> = Vec::new();
    let mut i: usize = 0;
    while i < n
        invariant
            n == entries@.len(),
            i <= n,
            r@ == encode_records(entries_view(entries@).take(i as int)),
        decreases n - i,
    {
        let hk = hex_encode(&entries[i].0);
        let hv = hex_encode(&entries[i].1);
        push_all(&mut r, &hk);
        r.push(44);
        push_all(&mut r, &hv);
        r.push(59);
        proof {
            let ev = entries_view(entries@);
            assert(ev.take(i + 1).drop_last() =~= ev.take(i as int));
            assert(ev.take(i + 1).last() == ev[i as int]);
            assert(r@ =~= encode_records(ev.take(i as int)) + encode_record(
                ev[i as int].0,
                ev[i as int].1,
            ));
        }
        i = i + 1;
    }
    proof {
        assert(entries_view(entries@).take(n as int) =~= entries_view(entries@));
    }
    r
}

/// Decode a framed payload; `None` exactly when the parser rejects it.
pub fn decode_payload(data: &Vec<u8>) -> (r: Option<Vec<(Vec<u8>, Vec<u8>)>>)
    ensures
        match r {
            Some(out) => parse_records(data@) == Some(entries_view(out@)),
            None => parse_records(data@) is None,
        },
{
    let n = data.len();
    let mut out: Vec<(Vec<u8>, Vec<u8>)> = Vec::new();
    let mut i: usize = 0;
    while i < n
        invariant
            n == data@.len(),
            i <= n,
            match parse_from(data@, i as int) {
                Some(rest) => parse_records(data@) == Some(entries_view(out@) + rest),
                None => parse_records(data@) is None,
            },
        decreases n - i,
    {
        // Find the terminator of the current record.
        let mut j: usize = i;
        while j < n && data[j] != 59
            invariant
                i <= j <= n,
                n == data@.len(),
                forall|m: int| i <= m < j ==> data@[m] != 59u8,
            decreases n - j,
        {
            j = j + 1;
        }
        if j == n {
            proof {
                lemma_find_byte_from(data@, 59u8, i as int);
                if find_byte_from(data@, 59u8, i as int) is Some {
                    let w = find_byte_from(data@, 59u8, i as int)->0;
                    assert(data@[w] == 59u8);
                }
            }
            return None;
        }
        proof {
            lemma_find_byte_from_exact(data@, 59u8, i as int, j as int);
        }
        // Find the separator inside the record.
        let mut c: usize = i;
        while c < j && data[c] != 44
            invariant
                i <= c <= j < n,
                n == data@.len(),
                forall|m: int| i <= m < c ==> data@[m] != 44u8,
            decreases j - c,
        {
            c = c + 1;
        }
        if c == j {
            proof {
                lemma_find_byte_from(data@, 44u8, i as int);
                if find_byte_from(data@, 44u8, i as int) is Some {
                    let w = find_byte_from(data@, 44u8, i as int)->0;
                    if w < j {
                        assert(data@[w] == 44u8);
                    }
                }
            }
            return None;
        }
        proof {
            lemma_find_byte_from_exact(data@, 44u8, i as int, c as int);
        }
        let kpart = copy_range(data, i, c);
        let vpart = copy_range(data, c + 1, j);
        let kb = match hex_decode(&kpart) {
            Some(kb) => kb,
            None => {
                return None;
            },
        };
        let vb = match hex_decode(&vpart) {
            Some(vb) => vb,
            None => {
                return None;
            },
        };
        proof {
            let si = parse_from(data@, i as int);
            let srest = parse_from(data@, j + 1);
            if srest is None {
                assert(si is None);
            } else {
                assert(si == Some(seq![(kb@, vb@)] + srest->0));
            }
        }
        let ghost prev_out = out@;
        out.push((kb, vb));
        proof {
            assert(entries_view(out@) =~= entries_view(prev_out).push((kb@, vb@)));
            match parse_from(data@, j + 1) {
                None => {},
                Some(rest2) => {
                    assert(entries_view(prev_out) + (seq![(kb@, vb@)] + rest2) =~= entries_view(
                        out@,
                    ) + rest2);
                },
            }
        }
        i = j + 1;
    }
    proof {
        assert(parse_from(data@, i as int) == Some(Seq::<(Seq<u8>, Seq<u8>)>::empty()));
        assert(entries_view(out@) + Seq::<(Seq<u8>, Seq<u8>)>::empty() =~= entries_view(out@));
    }
    Some(out)
}

} // verus!
