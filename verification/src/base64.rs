//! Base64 with padding, and that decoding undoes it.
use vstd::prelude::*;

verus! {

/// The character for a value below 64.
pub open spec fn b64_char(n: int) -> char {
    if n < 26 {
        ('A' as int + n) as char
    } else if n < 52 {
        ('a' as int + n - 26) as char
    } else if n < 62 {
        ('0' as int + n - 52) as char
    } else if n == 62 {
        '+'
    } else {
        '/'
    }
}

/// The three bytes of a group as one number; missing bytes count as zero.
pub open spec fn group_value(s: Seq<u8>) -> int {
    s[0] * 65536 + (if s.len() > 1 {
        s[1] * 256
    } else {
        0
    }) + (if s.len() > 2 {
        s[2] as int
    } else {
        0
    })
}

/// The four characters of the first group.
pub open spec fn group_text(s: Seq<u8>) -> Seq<char> {
    let n = group_value(s);
    seq![
        b64_char(n / 262144),
        b64_char(n / 4096 % 64),
        if s.len() > 1 {
            b64_char(n / 64 % 64)
        } else {
            '='
        },
        if s.len() > 2 {
            b64_char(n % 64)
        } else {
            '='
        },
    ]
}

/// The encoding: each three bytes become four characters, and the last group is
/// padded with `=`.
pub open spec fn base64(s: Seq<u8>) -> Seq<char>
    decreases s.len(),
{
    if s.len() == 0 {
        seq![]
    } else if s.len() <= 3 {
        group_text(s)
    } else {
        group_text(s.take(3)) + base64(s.skip(3))
    }
}

fn sextet(n: u32) -> (r: char)
    requires
        n < 64,
    ensures
        r == b64_char(n as int),
{
    if n < 26 {
        (65u8 + n as u8) as char
    } else if n < 52 {
        (97u8 + (n as u8 - 26u8)) as char
    } else if n < 62 {
        (48u8 + (n as u8 - 52u8)) as char
    } else if n == 62 {
        '+'
    } else {
        '/'
    }
}

/// The base64 encoding of the bytes.
pub fn simple_base64(input: &[u8]) -> (r: String)
    ensures
        r@ == base64(input@),
{
    let mut out = String::new();
    let mut i: usize = 0;
    proof {
        assert(input@.skip(0) =~= input@);
        assert(out@ + base64(input@) =~= base64(input@));
    }
    while i < input.len()
        invariant
            i <= input.len(),
            out@ + base64(input@.skip(i as int)) == base64(input@),
        decreases input.len() - i,
    {
        let ghost rest = input@.skip(i as int);
        let ghost before = out@;
        let left: usize = input.len() - i;
        let b0 = input[i] as u32;
        let b1: u32 = if left > 1 {
            input[i + 1] as u32
        } else {
            0
        };
        let b2: u32 = if left > 2 {
            input[i + 2] as u32
        } else {
            0
        };
        let n: u32 = b0 * 65536 + b1 * 256 + b2;
        out.push(sextet(n / 262144));
        out.push(sextet(n / 4096 % 64));
        if left > 1 {
            out.push(sextet(n / 64 % 64));
        } else {
            out.push('=');
        }
        if left > 2 {
            out.push(sextet(n % 64));
        } else {
            out.push('=');
        }
        let ghost group = if rest.len() <= 3 {
            rest
        } else {
            rest.take(3)
        };
        proof {
            assert(group_value(group) == n);
            assert(out@ =~= before + group_text(group));
        }
        if left <= 3 {
            i = input.len();
            proof {
                assert(input@.skip(i as int) =~= Seq::<u8>::empty());
                assert(out@ + base64(input@.skip(i as int)) =~= before + base64(rest));
            }
        } else {
            i += 3;
            proof {
                assert(rest.skip(3) =~= input@.skip(i as int));
                assert(out@ + base64(input@.skip(i as int)) =~= before + base64(rest));
            }
        }
    }
    proof {
        assert(input@.skip(i as int) =~= Seq::<u8>::empty());
        assert(out@ + base64(input@.skip(i as int)) =~= out@);
    }
    out
}

/// The value of a base64 character.
pub open spec fn b64_value(c: char) -> int {
    if 'A' <= c <= 'Z' {
        c as int - 'A' as int
    } else if 'a' <= c <= 'z' {
        c as int - 'a' as int + 26
    } else if '0' <= c <= '9' {
        c as int - '0' as int + 52
    } else if c == '+' {
        62
    } else if c == '/' {
        63
    } else {
        0
    }
}

/// The bytes that padded base64 text stands for.
pub open spec fn base64_bytes(t: Seq<char>) -> Seq<u8>
    decreases t.len(),
{
    if t.len() < 4 {
        seq![]
    } else {
        let n = b64_value(t[0]) * 262144 + b64_value(t[1]) * 4096 + b64_value(t[2]) * 64
            + b64_value(t[3]);
        let bytes = seq![(n / 65536) as u8, (n / 256 % 256) as u8, (n % 256) as u8];
        if t[2] == '=' {
            bytes.take(1)
        } else if t[3] == '=' {
            bytes.take(2)
        } else {
            bytes + base64_bytes(t.skip(4))
        }
    }
}

proof fn lemma_b64_value(n: int)
    requires
        0 <= n < 64,
    ensures
        b64_value(b64_char(n)) == n,
        b64_char(n) != '=',
{
}

proof fn lemma_sextets(n: int)
    requires
        0 <= n < 16777216,
    ensures
        0 <= n / 262144 < 64,
        0 <= n / 4096 % 64 < 64,
        0 <= n / 64 % 64 < 64,
        0 <= n % 64 < 64,
        (n / 262144) * 262144 + (n / 4096 % 64) * 4096 + (n / 64 % 64) * 64 + n % 64 == n,
{
}

proof fn lemma_bytes(b0: int, b1: int, b2: int)
    requires
        0 <= b0 < 256,
        0 <= b1 < 256,
        0 <= b2 < 256,
    ensures
        0 <= b0 * 65536 + b1 * 256 + b2 < 16777216,
        (b0 * 65536 + b1 * 256 + b2) / 65536 == b0,
        (b0 * 65536 + b1 * 256 + b2) / 256 % 256 == b1,
        (b0 * 65536 + b1 * 256 + b2) % 256 == b2,
        b2 == 0 ==> (b0 * 65536 + b1 * 256 + b2) % 64 == 0,
        b1 == 0 && b2 == 0 ==> (b0 * 65536 + b1 * 256 + b2) / 64 % 64 == 0,
{
}

/// The number that four base64 characters stand for.
spec fn quad_value(t: Seq<char>) -> int {
    b64_value(t[0]) * 262144 + b64_value(t[1]) * 4096 + b64_value(t[2]) * 64 + b64_value(t[3])
}

proof fn lemma_group(g: Seq<u8>)
    requires
        0 < g.len() <= 3,
    ensures
        quad_value(group_text(g)) == group_value(g),
        group_text(g)[2] == '=' <==> g.len() == 1,
        group_text(g)[3] == '=' <==> g.len() <= 2,
        group_value(g) / 65536 == g[0] as int,
        g.len() > 1 ==> group_value(g) / 256 % 256 == g[1] as int,
        g.len() > 2 ==> group_value(g) % 256 == g[2] as int,
{
    let b1: int = if g.len() > 1 {
        g[1] as int
    } else {
        0
    };
    let b2: int = if g.len() > 2 {
        g[2] as int
    } else {
        0
    };
    lemma_bytes(g[0] as int, b1, b2);
    let n = group_value(g);
    assert(n == g[0] * 65536 + b1 * 256 + b2);
    lemma_sextets(n);
    lemma_b64_value(n / 262144);
    lemma_b64_value(n / 4096 % 64);
    lemma_b64_value(n / 64 % 64);
    lemma_b64_value(n % 64);
}

/// Decoding an encoding gives the bytes back.
pub proof fn law_base64_round_trip(s: Seq<u8>)
    ensures
        base64_bytes(base64(s)) == s,
    decreases s.len(),
{
    if s.len() == 0 {
        assert(base64_bytes(base64(s)) =~= s);
    } else {
        let g = if s.len() <= 3 {
            s
        } else {
            s.take(3)
        };
        let t = base64(s);
        let four = group_text(g);
        assert(t[0] == four[0] && t[1] == four[1] && t[2] == four[2] && t[3] == four[3]);
        lemma_group(g);
        let n = quad_value(t);
        assert(n == group_value(g));
        if s.len() > 3 {
            law_base64_round_trip(s.skip(3));
            assert(t.skip(4) =~= base64(s.skip(3)));
        } else {
            assert(t.skip(4) =~= Seq::<char>::empty());
        }
        let bytes = seq![(n / 65536) as u8, (n / 256 % 256) as u8, (n % 256) as u8];
        assert(bytes[0] == s[0]);
        if s.len() == 1 {
            assert(base64_bytes(t) == bytes.take(1));
        } else if s.len() == 2 {
            assert(bytes[1] == s[1]);
            assert(base64_bytes(t) == bytes.take(2));
        } else {
            assert(bytes[1] == g[1]);
            assert(bytes[2] == g[2]);
            assert(base64_bytes(t) == bytes + base64_bytes(t.skip(4)));
        }
        assert(base64_bytes(t) =~= s);
    }
}

/// The characters in the order of the values that they stand for.
pub open spec fn alphabet() -> Seq<char> {
    "ABCDEFGHIJKLMNOPQRSTUVWXYZabcdefghijklmnopqrstuvwxyz0123456789+/"@
}

proof fn lemma_alphabet(n: int)
    requires
        0 <= n < 64,
    ensures
        b64_char(n) == alphabet()[n],
        alphabet().len() == 64,
{
    reveal_strlit("ABCDEFGHIJKLMNOPQRSTUVWXYZabcdefghijklmnopqrstuvwxyz0123456789+/");
}

/// Three bytes are written as four characters of six bits each, the high bits first; what
/// is missing of the last three is padded.
pub proof fn law_base64_groups(a: u8, b: u8, c: u8, rest: Seq<u8>)
    ensures
        ({
            let t = alphabet();
            let one = t[a as int / 4];
            let two = t[a as int % 4 * 16 + b as int / 16];
            let three = t[b as int % 16 * 4 + c as int / 64];
            let four = t[c as int % 64];
            &&& base64(seq![a, b, c] + rest) == seq![one, two, three, four] + base64(rest)
            &&& base64(seq![a, b]) == seq![one, two, t[b as int % 16 * 4], '=']
            &&& base64(seq![a]) == seq![one, t[a as int % 4 * 16], '=', '=']
            &&& base64(Seq::<u8>::empty()) == Seq::<char>::empty()
        }),
{
    let x = a as int;
    let y = b as int;
    let z = c as int;
    lemma_alphabet(x / 4);
    lemma_alphabet(x % 4 * 16 + y / 16);
    lemma_alphabet(x % 4 * 16);
    lemma_alphabet(y % 16 * 4 + z / 64);
    lemma_alphabet(y % 16 * 4);
    lemma_alphabet(z % 64);
    lemma_high_bits(x, y, z);
    lemma_high_bits(x, y, 0);
    lemma_high_bits(x, 0, 0);
    let three = seq![a, b, c];
    assert(group_value(three) == x * 65536 + y * 256 + z);
    assert(group_value(seq![a, b]) == x * 65536 + y * 256);
    assert(group_value(seq![a]) == x * 65536);
    let s = three + rest;
    assert(s.take(3) =~= three);
    assert(s.skip(3) =~= rest);
    if rest.len() == 0 {
        assert(s =~= three);
        assert(base64(rest) =~= Seq::<char>::empty());
        assert(group_text(three) + base64(rest) =~= group_text(three));
    }
}

proof fn lemma_high_bits(x: int, y: int, z: int)
    requires
        0 <= x < 256,
        0 <= y < 256,
        0 <= z < 256,
    ensures
        ({
            let n = x * 65536 + y * 256 + z;
            &&& n / 262144 == x / 4
            &&& n / 4096 % 64 == x % 4 * 16 + y / 16
            &&& n / 64 % 64 == y % 16 * 4 + z / 64
            &&& n % 64 == z % 64
        }),
{
}

} // verus!
