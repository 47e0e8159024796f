//! Byte-level text helpers shared by the save formats: splitting on a
//! separator, joining, and unsigned decimal numbers.

use vstd::prelude::*;

verus! {

/// The pieces of `s` between occurrences of `sep`, as `str::split` yields
/// them: one more piece than there are separators, empty pieces included.
pub open spec fn split_spec(s: Seq<u8>, sep: u8) -> Seq<Seq<u8>>
    decreases s.len(),
{
    if s.len() == 0 {
        seq![Seq::<u8>::empty()]
    } else {
        let rest = split_spec(s.drop_last(), sep);
        if s.last() == sep {
            rest.push(Seq::<u8>::empty())
        } else {
            rest.update(rest.len() - 1, rest.last().push(s.last()))
        }
    }
}

/// `parts` with `sep` between neighbours (empty for no parts).
pub open spec fn join_spec(parts: Seq<Seq<u8>>, sep: u8) -> Seq<u8>
    decreases parts.len(),
{
    if parts.len() == 0 {
        Seq::empty()
    } else if parts.len() == 1 {
        parts[0]
    } else {
        join_spec(parts.drop_last(), sep).push(sep) + parts.last()
    }
}

/// No part holds `sep`.
pub open spec fn free_of(parts: Seq<Seq<u8>>, sep: u8) -> bool {
    forall|k: int| 0 <= k < parts.len() ==> !(#[trigger] parts[k]).contains(sep)
}

pub open spec fn is_digit(c: u8) -> bool {
    48 <= c <= 57
}

pub open spec fn all_digits(s: Seq<u8>) -> bool {
    forall|i: int| 0 <= i < s.len() ==> is_digit(#[trigger] s[i])
}

/// The number written by the decimal digits `s`.
pub open spec fn digits_value(s: Seq<u8>) -> nat
    decreases s.len(),
{
    if s.len() == 0 {
        0
    } else {
        digits_value(s.drop_last()) * 10 + (s.last() - 48) as nat
    }
}

/// What `u8::from_str` accepts: an optional `+`, then one or more decimal
/// digits whose value is at most 255.
pub open spec fn parse_u8_spec(tok: Seq<u8>) -> Option<u8> {
    let d = if tok.len() > 0 && tok[0] == 43 {
        tok.skip(1)
    } else {
        tok
    };
    if d.len() > 0 && all_digits(d) && digits_value(d) <= 255 {
        Some(digits_value(d) as u8)
    } else {
        None
    }
}

/// `v` in decimal, without leading zeros.
pub open spec fn decimal_spec(v: nat) -> Seq<u8>
    decreases v,
{
    if v < 10 {
        seq![(48 + v) as u8]
    } else {
        decimal_spec(v / 10).push((48 + v % 10) as u8)
    }
}

pub proof fn lemma_split_nonempty(s: Seq<u8>, sep: u8)
    ensures
        split_spec(s, sep).len() >= 1,
    decreases s.len(),
{
    if s.len() > 0 {
        lemma_split_nonempty(s.drop_last(), sep);
    }
}

/// Appending text without a separator extends the last piece.
proof fn lemma_split_extend(a: Seq<u8>, b: Seq<u8>, sep: u8)
    requires
        !b.contains(sep),
    ensures
        split_spec(a + b, sep) == split_spec(a, sep).update(
            split_spec(a, sep).len() - 1,
            split_spec(a, sep).last() + b,
        ),
    decreases b.len(),
{
    lemma_split_nonempty(a, sep);
    let sa = split_spec(a, sep);
    if b.len() == 0 {
        assert(a + b =~= a);
        assert(sa.last() + b =~= sa.last());
        assert(sa.update(sa.len() - 1, sa.last()) =~= sa);
    } else {
        let b0 = b.drop_last();
        assert(!b0.contains(sep)) by {
            if b0.contains(sep) {
                let k = choose|k: int| 0 <= k < b0.len() && b0[k] == sep;
                assert(b[k] == sep);
            }
        }
        lemma_split_extend(a, b0, sep);
        assert((a + b).drop_last() =~= a + b0);
        assert((a + b).last() == b.last());
        assert(b.last() != sep) by {
            assert(b[b.len() - 1] == b.last());
        }
        let mid = split_spec(a + b0, sep);
        assert(mid.last() == sa.last() + b0);
        assert((sa.last() + b0).push(b.last()) =~= sa.last() + b);
        assert(split_spec(a + b, sep) =~= sa.update(sa.len() - 1, sa.last() + b));
    }
}

/// Splitting joined pieces that hold no separator gives the pieces back.
pub proof fn lemma_split_join(parts: Seq<Seq<u8>>, sep: u8)
    requires
        parts.len() >= 1,
        free_of(parts, sep),
    ensures
        split_spec(join_spec(parts, sep), sep) == parts,
    decreases parts.len(),
{
    if parts.len() == 1 {
        lemma_split_extend(Seq::empty(), parts[0], sep);
        assert(Seq::<u8>::empty() + parts[0] =~= parts[0]);
        assert(split_spec(Seq::<u8>::empty(), sep) =~= seq![Seq::<u8>::empty()]);
        assert(split_spec(parts[0], sep) =~= parts);
    } else {
        let init = parts.drop_last();
        assert(free_of(init, sep)) by {
            assert forall|k: int| 0 <= k < init.len() implies !(#[trigger] init[k]).contains(sep) by {
                assert(init[k] == parts[k]);
            }
        }
        lemma_split_join(init, sep);
        let j = join_spec(init, sep);
        let jp = j.push(sep);
        assert(jp.drop_last() =~= j);
        assert(split_spec(jp, sep) =~= init.push(Seq::<u8>::empty()));
        assert(!parts.last().contains(sep)) by {
            assert(parts[parts.len() - 1] == parts.last());
        }
        lemma_split_extend(jp, parts.last(), sep);
        assert(Seq::<u8>::empty() + parts.last() =~= parts.last());
        assert(init.push(Seq::<u8>::empty()).update(init.len() as int, parts.last()) =~= parts);
    }
}

/// A joined text holds `c` only where a part or the separator does.
pub proof fn lemma_join_free(parts: Seq<Seq<u8>>, sep: u8, c: u8)
    requires
        c != sep,
        free_of(parts, c),
    ensures
        !join_spec(parts, sep).contains(c),
    decreases parts.len(),
{
    if parts.len() == 1 {
        assert(!parts[0].contains(c));
    } else if parts.len() > 1 {
        let init = parts.drop_last();
        assert(free_of(init, c)) by {
            assert forall|k: int| 0 <= k < init.len() implies !(#[trigger] init[k]).contains(c) by {
                assert(init[k] == parts[k]);
            }
        }
        lemma_join_free(init, sep, c);
        let j = join_spec(init, sep).push(sep);
        let l = parts.last();
        assert(!l.contains(c)) by {
            assert(parts[parts.len() - 1] == l);
        }
        if (j + l).contains(c) {
            let k = choose|k: int| 0 <= k < (j + l).len() && (j + l)[k] == c;
            if k < j.len() - 1 {
                assert(join_spec(init, sep)[k] == c);
            } else if k >= j.len() {
                assert(l[k - j.len()] == c);
            }
        }
    }
}

proof fn lemma_decimal_digits(v: nat)
    ensures
        decimal_spec(v).len() >= 1,
        all_digits(decimal_spec(v)),
        digits_value(decimal_spec(v)) == v,
        v < 10 ==> decimal_spec(v).len() == 1,
        10 <= v < 100 ==> decimal_spec(v).len() == 2,
        100 <= v < 1000 ==> decimal_spec(v).len() == 3,
    decreases v,
{
    if v >= 10 {
        lemma_decimal_digits(v / 10);
        let d = decimal_spec(v / 10);
        let e = d.push((48 + v % 10) as u8);
        assert(e.drop_last() =~= d);
        assert(decimal_spec(v) == e);
        assert(e.last() == 48 + v % 10);
        vstd::arithmetic::div_mod::lemma_fundamental_div_mod(v as int, 10);
        assert(digits_value(e) == digits_value(d) * 10 + v % 10);
        assert forall|i: int| 0 <= i < e.len() implies is_digit(#[trigger] e[i]) by {
            if i < d.len() {
                assert(e[i] == d[i]);
            }
        }
        assert(digits_value(d) == v / 10);
        assert((v / 10) * 10 + v % 10 == v);
    } else {
        let e = seq![(48 + v) as u8];
        assert(decimal_spec(v) == e);
        assert(e.last() == 48 + v);
        assert(e.drop_last() =~= Seq::<u8>::empty());
        assert(digits_value(e) == digits_value(Seq::<u8>::empty()) * 10 + v);
    }
}

/// Writing a byte in decimal and reading it back gives it again.
pub proof fn lemma_parse_decimal(v: u8)
    ensures
        parse_u8_spec(decimal_spec(v as nat)) == Some(v),
        decimal_spec(v as nat).len() >= 1,
        all_digits(decimal_spec(v as nat)),
{
    lemma_decimal_digits(v as nat);
    let d = decimal_spec(v as nat);
    assert(is_digit(d[0]));
}

proof fn lemma_value_prefix_grows(s: Seq<u8>, i: int)
    requires
        0 <= i <= s.len(),
        all_digits(s),
    ensures
        digits_value(s.take(i)) <= digits_value(s),
    decreases s.len() - i,
{
    if i < s.len() {
        lemma_value_prefix_grows(s, i + 1);
        assert(s.take(i + 1).drop_last() =~= s.take(i));
        assert(s.take(i + 1).last() == s[i]);
        assert(is_digit(s[i]));
        assert(digits_value(s.take(i + 1)) == digits_value(s.take(i)) * 10 + (s[i] - 48) as nat);
    } else {
        assert(s.take(i) =~= s);
    }
}

/// Parses a token the way `u8::from_str` does.
pub fn parse_u8(tok: &[u8]) -> (r: Option<u8>)
    ensures
        r == parse_u8_spec(tok@),
{
    let start: usize = if tok.len() > 0 && tok[0] == 43 {
        1
    } else {
        0
    };
    let ghost d = if tok@.len() > 0 && tok@[0] == 43 {
        tok@.skip(1)
    } else {
        tok@
    };
    assert(d =~= tok@.skip(start as int));
    if start >= tok.len() {
        assert(d.len() == 0);
        return None;
    }
    let mut acc: u32 = 0;
    let mut i: usize = start;
    while i < tok.len()
        invariant
            start <= i <= tok@.len(),
            start == 0 || start == 1,
            d == tok@.skip(start as int),
            d == (if tok@.len() > 0 && tok@[0] == 43 {
                tok@.skip(1)
            } else {
                tok@
            }),
            acc <= 255,
            acc == digits_value(d.take(i - start)),
            all_digits(d.take(i - start)),
        decreases tok@.len() - i,
    {
        let c = tok[i];
        let ghost k = i - start;
        assert(d[k] == c);
        assert(d.take(k + 1).drop_last() =~= d.take(k));
        assert(d.take(k + 1).last() == c);
        if c < 48 || c > 57 {
            assert(!all_digits(d)) by {
                assert(!is_digit(d[k]));
            }
            return None;
        }
        let next = acc * 10 + (c - 48) as u32;
        assert(digits_value(d.take(k + 1)) == acc * 10 + (c - 48) as nat);
        assert forall|j: int| 0 <= j < k + 1 implies is_digit(#[trigger] d.take(k + 1)[j]) by {
            if j < k {
                assert(d.take(k + 1)[j] == d.take(k)[j]);
            }
        }
        if next > 255 {
            proof {
                if all_digits(d) {
                    lemma_value_prefix_grows(d, k + 1);
                }
            }
            return None;
        }
        acc = next;
        i += 1;
    }
    assert(d.take(tok@.len() - start) =~= d);
    Some(acc as u8)
}

/// Appends `v` in decimal.
pub fn push_decimal(out: &mut Vec<u8>, v: u8)
    ensures
        final(out)@ == old(out)@ + decimal_spec(v as nat),
{
    proof {
        reveal_with_fuel(decimal_spec, 3);
    }
    let ghost o = out@;
    if v >= 100 {
        out.push(48 + v / 100);
        out.push(48 + (v / 10) % 10);
        out.push(48 + v % 10);
        assert(decimal_spec((v / 10) as nat) == decimal_spec((v / 100) as nat).push((48 + (v / 10) % 10) as u8));
        assert(out@ =~= o + decimal_spec(v as nat));
    } else if v >= 10 {
        out.push(48 + v / 10);
        out.push(48 + v % 10);
        assert(out@ =~= o + decimal_spec(v as nat));
    } else {
        out.push(48 + v);
        assert(out@ =~= o + decimal_spec(v as nat));
    }
}

/// Splits `s` on `sep` the way `str::split` does.
pub fn split_bytes(s: &[u8], sep: u8) -> (r: Vec<Vec<u8>>)
    ensures
        r@.len() == split_spec(s@, sep).len(),
        forall|k: int| 0 <= k < r@.len() ==> (#[trigger] r@[k])@ == split_spec(s@, sep)[k],
{
    let mut done: Vec<Vec<u8>> = Vec::new();
    let mut cur: Vec<u8> = Vec::new();
    let mut i: usize = 0;
    while i < s.len()
        invariant
            0 <= i <= s@.len(),
            done@.len() + 1 == split_spec(s@.take(i as int), sep).len(),
            forall|k: int| 0 <= k < done@.len() ==> (#[trigger] done@[k])@ == split_spec(s@.take(i as int), sep)[k],
            cur@ == split_spec(s@.take(i as int), sep).last(),
        decreases s@.len() - i,
    {
        let c = s[i];
        assert(s@.take(i + 1).drop_last() =~= s@.take(i as int));
        assert(s@.take(i + 1).last() == c);
        if c == sep {
            let piece = cur;
            done.push(piece);
            cur = Vec::new();
            assert(cur@ =~= Seq::<u8>::empty());
        } else {
            cur.push(c);
        }
        i += 1;
    }
    assert(s@.take(s@.len() as int) =~= s@);
    done.push(cur);
    done
}

} // verus!
