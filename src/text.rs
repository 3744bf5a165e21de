//! Byte-level text: decimal digits, names and keywords of the emitted code.
use vstd::prelude::*;
use crate::MemoryLevel;

verus! {

/// Decimal digits of `n`, most significant first.
pub open spec fn decimal(n: nat) -> Seq<u8>
    decreases n,
{
    if n < 10 {
        seq![(48 + n) as u8]
    } else {
        decimal(n / 10).push((48 + n % 10) as u8)
    }
}

/// Symbolic name of the value at position `p` of the emission order: `v`
/// followed by the decimal digits of `p`.
pub open spec fn name_text(p: nat) -> Seq<u8> {
    seq![118u8].add(decimal(p))
}

/// Keyword that declares a buffer at a memory level: `reg`, `shared` or
/// `global` in ASCII.
pub open spec fn level_word(l: MemoryLevel) -> Seq<u8> {
    match l {
        MemoryLevel::Register => seq![114u8, 101u8, 103u8],
        MemoryLevel::Shared => seq![115u8, 104u8, 97u8, 114u8, 101u8, 100u8],
        MemoryLevel::Global => seq![103u8, 108u8, 111u8, 98u8, 97u8, 108u8],
    }
}

/// Text as characters: each byte read as one character.
pub open spec fn chars_of(b: Seq<u8>) -> Seq<char> {
    b.map_values(|x: u8| x as char)
}

/// Whether every byte is ASCII.
pub open spec fn is_ascii_bytes(b: Seq<u8>) -> bool {
    forall|i: int| 0 <= i < b.len() ==> #[trigger] b[i] < 128
}

/// Append the decimal digits of `n` to `out`.
pub fn push_decimal(out: &mut Vec<u8>, n: usize)
    ensures
        final(out)@ == old(out)@.add(decimal(n as nat)),
    decreases n,
{
    if n >= 10 {
        push_decimal(out, n / 10);
    }
    out.push((48 + n % 10) as u8);
    proof {
        assert(final(out)@ =~= old(out)@.add(decimal(n as nat)));
    }
}

/// Append the decimal digits of `n` to `out`.
pub fn push_decimal_u64(out: &mut Vec<u8>, n: u64)
    ensures
        final(out)@ == old(out)@.add(decimal(n as nat)),
    decreases n,
{
    if n >= 10 {
        push_decimal_u64(out, n / 10);
    }
    out.push((48 + n % 10) as u8);
    proof {
        assert(final(out)@ =~= old(out)@.add(decimal(n as nat)));
    }
}

/// Append the symbolic name of position `p` to `out`.
pub fn push_name(out: &mut Vec<u8>, p: usize)
    ensures
        final(out)@ == old(out)@.add(name_text(p as nat)),
{
    out.push(118u8);
    push_decimal(out, p);
    proof {
        assert(final(out)@ =~= old(out)@.add(name_text(p as nat)));
    }
}

/// Append the bytes of `s` to `out`.
pub fn push_bytes(out: &mut Vec<u8>, s: &[u8])
    ensures
        final(out)@ == old(out)@.add(s@),
{
    let mut i: usize = 0;
    while i < s.len()
        invariant
            i <= s@.len(),
            out@ == old(out)@.add(s@.take(i as int)),
        decreases s@.len() - i,
    {
        out.push(s[i]);
        i = i + 1;
        proof {
            assert(out@ =~= old(out)@.add(s@.take(i as int)));
        }
    }
    proof {
        assert(s@.take(s@.len() as int) =~= s@);
    }
}

/// Append the declaration keyword of a memory level to `out`.
pub fn push_level(out: &mut Vec<u8>, l: MemoryLevel)
    ensures
        final(out)@ == old(out)@.add(level_word(l)),
{
    match l {
        MemoryLevel::Register => {
            let w: [u8; 3] = [114u8, 101u8, 103u8];
            push_bytes(out, &w);
            assert(w@ =~= level_word(l));
        },
        MemoryLevel::Shared => {
            let w: [u8; 6] = [115u8, 104u8, 97u8, 114u8, 101u8, 100u8];
            push_bytes(out, &w);
            assert(w@ =~= level_word(l));
        },
        MemoryLevel::Global => {
            let w: [u8; 6] = [103u8, 108u8, 111u8, 98u8, 97u8, 108u8];
            push_bytes(out, &w);
            assert(w@ =~= level_word(l));
        },
    }
}

/// Relies on String::from_utf8: ASCII bytes are valid UTF-8, and the string
/// holds one character per byte.
#[verifier::external_body]
pub(crate) fn ascii_to_string(b: Vec<u8>) -> (r: String)
    requires
        is_ascii_bytes(b@),
    ensures
        r@ == chars_of(b@),
{
    String::from_utf8(b).unwrap()
}

/// Concatenation keeps text ASCII.
pub proof fn lemma_ascii_concat(a: Seq<u8>, b: Seq<u8>)
    requires
        is_ascii_bytes(a),
        is_ascii_bytes(b),
    ensures
        is_ascii_bytes(a + b),
{
    assert forall|i: int| 0 <= i < (a + b).len() implies #[trigger] (a + b)[i] < 128 by {
        if i < a.len() {
            assert((a + b)[i] == a[i]);
        } else {
            assert((a + b)[i] == b[i - a.len()]);
        }
    }
}

/// Decimal digits are ASCII.
pub proof fn lemma_decimal_ascii(n: nat)
    ensures
        is_ascii_bytes(decimal(n)),
    decreases n,
{
    if n >= 10 {
        lemma_decimal_ascii(n / 10);
        let d = decimal(n / 10);
        assert forall|i: int| 0 <= i < decimal(n).len() implies #[trigger] decimal(n)[i] < 128 by {
            if i < d.len() {
                assert(decimal(n)[i] == d[i]);
            }
        }
    }
}

/// Decimal digits followed by more ASCII stay ASCII.
pub proof fn lemma_decimal_then(a: Seq<u8>, n: nat)
    requires
        is_ascii_bytes(a),
    ensures
        is_ascii_bytes(a + decimal(n)),
{
    lemma_decimal_ascii(n);
    lemma_ascii_concat(a, decimal(n));
}

/// Names are ASCII.
pub proof fn lemma_name_ascii(p: nat)
    ensures
        is_ascii_bytes(name_text(p)),
{
    lemma_decimal_ascii(p);
    lemma_ascii_concat(seq![118u8], decimal(p));
}

} // verus!
