use vstd::prelude::*;

verus! {

/// The four bytes that open an out-of-band packet.
pub open spec fn oob_prefix() -> Seq<u8> {
    seq![0xFFu8, 0xFFu8, 0xFFu8, 0xFFu8]
}

/// The word that opens a challenge response: `challengeResponse` in ASCII.
pub open spec fn challenge_word() -> Seq<u8> {
    seq![
        0x63u8, 0x68u8, 0x61u8, 0x6cu8, 0x6cu8, 0x65u8, 0x6eu8, 0x67u8, 0x65u8,
        0x52u8, 0x65u8, 0x73u8, 0x70u8, 0x6fu8, 0x6eu8, 0x73u8, 0x65u8,
    ]
}

/// ASCII white space: tab, line feed, vertical tab, form feed, carriage
/// return and space.
pub open spec fn is_space(b: u8) -> bool {
    b == 0x20 || (0x09 <= b && b <= 0x0d)
}

/// The first index at or after `i` that holds no white space.
pub open spec fn skip_spaces(s: Seq<u8>, i: int) -> int
    decreases s.len() - i,
{
    if 0 <= i < s.len() && is_space(s[i]) {
        skip_spaces(s, i + 1)
    } else {
        i
    }
}

/// The first index at or after `i` that holds white space, or the end.
pub open spec fn word_end(s: Seq<u8>, i: int) -> int
    decreases s.len() - i,
{
    if 0 <= i < s.len() && !is_space(s[i]) {
        word_end(s, i + 1)
    } else {
        i
    }
}

pub open spec fn is_digit(b: u8) -> bool {
    0x30 <= b && b <= 0x39
}

/// The number that the decimal digits `d` spell.
pub open spec fn digits_val(d: Seq<u8>) -> int
    decreases d.len(),
{
    if d.len() == 0 {
        0
    } else {
        digits_val(d.drop_last()) * 10 + (d.last() - 0x30)
    }
}

/// The length of the sign that opens `t`: one for `-` or `+`, else zero.
pub open spec fn sign_len(t: Seq<u8>) -> int {
    if t.len() > 0 && (t[0] == 0x2d || t[0] == 0x2b) {
        1
    } else {
        0
    }
}

/// A decimal `i32`: an optional sign, then one or more digits, in range.
pub open spec fn parse_i32(t: Seq<u8>) -> Option<i32> {
    let d = t.subrange(sign_len(t), t.len() as int);
    let v = if t.len() > 0 && t[0] == 0x2d {
        -digits_val(d)
    } else {
        digits_val(d)
    };
    if d.len() > 0 && (forall|k: int| 0 <= k < d.len() ==> is_digit(#[trigger] d[k])) && i32::MIN
        <= v <= i32::MAX {
        Some(v as i32)
    } else {
        None
    }
}

/// The challenge number of a challenge response: the second word of `s`,
/// where `s` opens with `challengeResponse`.
pub open spec fn challenge_spec(s: Seq<u8>) -> Option<i32> {
    if s.len() >= 17 && s.subrange(0, 17) == challenge_word() {
        let a = skip_spaces(s, word_end(s, 0));
        let b = word_end(s, a);
        if a < b {
            parse_i32(s.subrange(a, b))
        } else {
            None
        }
    } else {
        None
    }
}

/// Tells whether `packet` opens with the out-of-band prefix.
pub fn is_out_of_band(packet: &[u8]) -> (r: bool)
    ensures
        r == (packet@.len() >= 4 && packet@.subrange(0, 4) == oob_prefix()),
{
    if packet.len() < 4 {
        return false;
    }
    let r = packet[0] == 0xFF && packet[1] == 0xFF && packet[2] == 0xFF && packet[3] == 0xFF;
    proof {
        if r {
            assert(packet@.subrange(0, 4) =~= oob_prefix());
        } else {
            if packet@.subrange(0, 4) == oob_prefix() {
                assert(packet@[0] == packet@.subrange(0, 4)[0]);
                assert(packet@[1] == packet@.subrange(0, 4)[1]);
                assert(packet@[2] == packet@.subrange(0, 4)[2]);
                assert(packet@[3] == packet@.subrange(0, 4)[3]);
            }
        }
    }
    r
}

/// The out-of-band prefix followed by `payload`.
pub fn out_of_band(payload: &[u8]) -> (r: Vec<u8>)
    ensures
        r@ == oob_prefix() + payload@,
{
    let mut r: Vec<u8> = Vec::new();
    r.push(0xFF);
    r.push(0xFF);
    r.push(0xFF);
    r.push(0xFF);
    let mut i: usize = 0;
    while i < payload.len()
        invariant
            i <= payload@.len(),
            r@ == oob_prefix() + payload@.subrange(0, i as int),
        decreases payload@.len() - i,
    {
        r.push(payload[i]);
        proof {
            assert(payload@.subrange(0, i + 1) =~= payload@.subrange(0, i as int).push(payload@[i as int]));
            assert(r@ =~= oob_prefix() + payload@.subrange(0, i + 1));
        }
        i = i + 1;
    }
    proof {
        assert(payload@.subrange(0, payload@.len() as int) =~= payload@);
    }
    r
}

fn is_space_byte(b: u8) -> (r: bool)
    ensures
        r == is_space(b),
{
    b == 0x20 || (0x09 <= b && b <= 0x0d)
}

fn skip_spaces_from(s: &[u8], i: usize) -> (r: usize)
    requires
        i <= s@.len(),
    ensures
        r == skip_spaces(s@, i as int),
        i <= r <= s@.len(),
{
    let mut j = i;
    while j < s.len() && is_space_byte(s[j])
        invariant
            i <= j <= s@.len(),
            skip_spaces(s@, i as int) == skip_spaces(s@, j as int),
        decreases s@.len() - j,
    {
        j = j + 1;
    }
    j
}

fn word_end_from(s: &[u8], i: usize) -> (r: usize)
    requires
        i <= s@.len(),
    ensures
        r == word_end(s@, i as int),
        i <= r <= s@.len(),
{
    let mut j = i;
    while j < s.len() && !is_space_byte(s[j])
        invariant
            i <= j <= s@.len(),
            word_end(s@, i as int) == word_end(s@, j as int),
        decreases s@.len() - j,
    {
        j = j + 1;
    }
    j
}

proof fn lemma_digits_grow(d: Seq<u8>, j: int)
    requires
        0 <= j <= d.len(),
        forall|k: int| 0 <= k < d.len() ==> is_digit(#[trigger] d[k]),
    ensures
        digits_val(d) >= digits_val(d.subrange(0, j)) >= 0,
    decreases d.len() - j,
{
    if j < d.len() {
        lemma_digits_grow(d, j + 1);
        let p = d.subrange(0, j + 1);
        assert(p.drop_last() =~= d.subrange(0, j));
        assert(p.last() == d[j]);
        assert(is_digit(d[j]));
    } else {
        assert(d.subrange(0, j) =~= d);
        lemma_digits_nonneg(d);
    }
}

proof fn lemma_digits_nonneg(d: Seq<u8>)
    requires
        forall|k: int| 0 <= k < d.len() ==> is_digit(#[trigger] d[k]),
    ensures
        digits_val(d) >= 0,
    decreases d.len(),
{
    if d.len() > 0 {
        let p = d.drop_last();
        assert forall|k: int| 0 <= k < p.len() implies is_digit(#[trigger] p[k]) by {
            assert(p[k] == d[k]);
        }
        lemma_digits_nonneg(p);
        assert(is_digit(d[d.len() - 1]));
    }
}

/// Reads a decimal `i32` from `s[from..to]`.
fn parse_i32_at(s: &[u8], from: usize, to: usize) -> (r: Option<i32>)
    requires
        from <= to <= s@.len(),
    ensures
        r == parse_i32(s@.subrange(from as int, to as int)),
{
    let ghost t = s@.subrange(from as int, to as int);
    let neg = from < to && s[from] == 0x2d;
    let signed = from < to && (s[from] == 0x2d || s[from] == 0x2b);
    let start = if signed {
        from + 1
    } else {
        from
    };
    let ghost d = s@.subrange(start as int, to as int);
    proof {
        assert(d =~= t.subrange(sign_len(t), t.len() as int));
    }
    if start == to {
        return None;
    }
    let mut v: i64 = 0;
    let mut i = start;
    while i < to
        invariant
            start <= i <= to <= s@.len(),
            from <= start,
            d == s@.subrange(start as int, to as int),
            t == s@.subrange(from as int, to as int),
            d == t.subrange(sign_len(t), t.len() as int),
            neg == (t.len() > 0 && t[0] == 0x2d),
            0 <= v <= 0x8000_0000,
            forall|k: int| start <= k < i ==> is_digit(#[trigger] s@[k]),
            v == digits_val(s@.subrange(start as int, i as int)),
        decreases to - i,
    {
        let b = s[i];
        if !(0x30 <= b && b <= 0x39) {
            proof {
                assert(d[i - start] == b);
                assert(!is_digit(d[i - start]));
            }
            return None;
        }
        let nv = v * 10 + (b - 0x30) as i64;
        proof {
            let p = s@.subrange(start as int, i + 1);
            assert(p.drop_last() =~= s@.subrange(start as int, i as int));
            assert(p.last() == b);
        }
        if nv > 0x8000_0000 {
            proof {
                let p = s@.subrange(start as int, i + 1);
                assert(nv == digits_val(p));
                if forall|k: int| 0 <= k < d.len() ==> is_digit(#[trigger] d[k]) {
                    lemma_digits_grow(d, i + 1 - start);
                    assert(d.subrange(0, i + 1 - start) =~= p);
                }
            }
            return None;
        }
        v = nv;
        i = i + 1;
    }
    proof {
        assert(s@.subrange(start as int, to as int) =~= d);
        assert forall|k: int| 0 <= k < d.len() implies is_digit(#[trigger] d[k]) by {
            assert(d[k] == s@[start + k]);
        }
    }
    if neg {
        Some((-v) as i32)
    } else if v <= 0x7FFF_FFFF {
        Some(v as i32)
    } else {
        None
    }
}

/// The challenge number carried by a challenge response, if `text` is one.
pub fn parse_challenge(text: &[u8]) -> (r: Option<i32>)
    ensures
        r == challenge_spec(text@),
{
    let word: Vec<u8> = vec![
        0x63u8, 0x68u8, 0x61u8, 0x6cu8, 0x6cu8, 0x65u8, 0x6eu8, 0x67u8, 0x65u8,
        0x52u8, 0x65u8, 0x73u8, 0x70u8, 0x6fu8, 0x6eu8, 0x73u8, 0x65u8,
    ];
    proof {
        assert(word@ =~= challenge_word());
    }
    if text.len() < 17 {
        return None;
    }
    let mut i: usize = 0;
    while i < 17
        invariant
            i <= 17 <= text@.len(),
            word@ == challenge_word(),
            forall|k: int| 0 <= k < i ==> text@[k] == #[trigger] word@[k],
        decreases 17 - i,
    {
        if text[i] != word[i] {
            proof {
                assert(text@.subrange(0, 17)[i as int] == text@[i as int]);
            }
            return None;
        }
        i = i + 1;
    }
    proof {
        assert(text@.subrange(0, 17) =~= challenge_word());
    }
    let e = word_end_from(text, 0);
    let a = skip_spaces_from(text, e);
    let b = word_end_from(text, a);
    if a < b {
        parse_i32_at(text, a, b)
    } else {
        None
    }
}

} // verus!
