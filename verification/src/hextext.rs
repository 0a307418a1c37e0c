//! Hexadecimal text: the textual form of every byte-valued field, and the
//! prefixed lowercase rendering used for responses.

use vstd::prelude::*;
use vstd::string::*;

verus! {

pub open spec fn is_hex_char(c: char) -> bool {
    let u = c as u32;
    (('0' as u32) <= u && u <= ('9' as u32)) || (('a' as u32) <= u && u <= ('f' as u32)) || ((
    'A' as u32) <= u && u <= ('F' as u32))
}

pub open spec fn hex_char_val(c: char) -> nat {
    let u = c as u32;
    if ('0' as u32) <= u && u <= ('9' as u32) {
        (u - ('0' as u32)) as nat
    } else if ('a' as u32) <= u && u <= ('f' as u32) {
        (u - ('a' as u32) + 10) as nat
    } else if ('A' as u32) <= u && u <= ('F' as u32) {
        (u - ('A' as u32) + 10) as nat
    } else {
        0
    }
}

pub open spec fn all_hex(s: Seq<char>) -> bool {
    forall|i: int| 0 <= i < s.len() ==> is_hex_char(#[trigger] s[i])
}

/// The bytes denoted by an even-length run of hex digits, two digits each.
pub open spec fn hex_bytes(s: Seq<char>) -> Seq<u8>
    decreases s.len(),
{
    if s.len() < 2 {
        Seq::empty()
    } else {
        hex_bytes(s.drop_last().drop_last()).push(
            (hex_char_val(s[s.len() - 2]) * 16 + hex_char_val(s.last())) as u8,
        )
    }
}

pub proof fn lemma_hex_bytes_len(s: Seq<char>)
    requires
        s.len() % 2 == 0,
    ensures
        hex_bytes(s).len() == s.len() / 2,
    decreases s.len(),
{
    if s.len() >= 2 {
        lemma_hex_bytes_len(s.drop_last().drop_last());
    }
}

/// Lowercase digit of a nibble value.
pub open spec fn nibble_char(v: nat) -> char {
    if v == 0 {
        '0'
    } else if v == 1 {
        '1'
    } else if v == 2 {
        '2'
    } else if v == 3 {
        '3'
    } else if v == 4 {
        '4'
    } else if v == 5 {
        '5'
    } else if v == 6 {
        '6'
    } else if v == 7 {
        '7'
    } else if v == 8 {
        '8'
    } else if v == 9 {
        '9'
    } else if v == 10 {
        'a'
    } else if v == 11 {
        'b'
    } else if v == 12 {
        'c'
    } else if v == 13 {
        'd'
    } else if v == 14 {
        'e'
    } else {
        'f'
    }
}

/// Lowercase hex digits of a byte sequence, two per byte.
pub open spec fn hex_of(b: Seq<u8>) -> Seq<char>
    decreases b.len(),
{
    if b.len() == 0 {
        Seq::empty()
    } else {
        hex_of(b.drop_last()) + seq![
            nibble_char((b.last() / 16) as nat),
            nibble_char((b.last() % 16) as nat),
        ]
    }
}

/// The transport rendering of a byte buffer: "0x" + lowercase hex digits.
pub open spec fn hex_text(b: Seq<u8>) -> Seq<char> {
    seq!['0', 'x'] + hex_of(b)
}

pub(crate) fn hex_char_value(c: char) -> (r: Option<u8>)
    ensures
        match r {
            Some(v) => is_hex_char(c) && v == hex_char_val(c) && v < 16,
            None => !is_hex_char(c),
        },
{
    let u = c as u32;
    if 48 <= u && u <= 57 {
        Some((u - 48) as u8)
    } else if 97 <= u && u <= 102 {
        Some((u - 97 + 10) as u8)
    } else if 65 <= u && u <= 70 {
        Some((u - 65 + 10) as u8)
    } else {
        None
    }
}

/// Decode a run of hex digits (no prefix) into bytes; `None` on an odd
/// digit count or any character that is not a hex digit.
pub fn hex_decode(s: &str) -> (r: Option<Vec<u8>>)
    ensures
        match r {
            Some(b) => s@.len() % 2 == 0 && all_hex(s@) && b@ == hex_bytes(s@),
            None => !(s@.len() % 2 == 0 && all_hex(s@)),
        },
{
    let n = s.unicode_len();
    if n % 2 != 0 {
        return None;
    }
    let mut out: Vec<u8> = Vec::new();
    let mut i: usize = 0;
    while i < n
        invariant
            n == s@.len(),
            n % 2 == 0,
            i % 2 == 0,
            i <= n,
            out@ == hex_bytes(s@.take(i as int)),
            all_hex(s@.take(i as int)),
        decreases n - i,
    {
        let c0 = s.get_char(i);
        let c1 = s.get_char(i + 1);
        let v0 = match hex_char_value(c0) {
            Some(v) => v,
            None => {
                proof {
                    assert(!is_hex_char(s@[i as int]));
                }
                return None;
            },
        };
        let v1 = match hex_char_value(c1) {
            Some(v) => v,
            None => {
                proof {
                    assert(!is_hex_char(s@[i as int + 1]));
                }
                return None;
            },
        };
        out.push(v0 * 16 + v1);
        proof {
            let t = s@.take(i as int + 2);
            assert(t.drop_last().drop_last() =~= s@.take(i as int));
            assert(t[t.len() - 2] == s@[i as int]);
            assert(t.last() == s@[i as int + 1]);
            assert(out@ == hex_bytes(t));
            assert forall|k: int| 0 <= k < t.len() implies is_hex_char(#[trigger] t[k]) by {
                if k < i {
                    assert(is_hex_char(s@.take(i as int)[k]));
                }
            }
        }
        i += 2;
    }
    proof {
        assert(s@.take(n as int) =~= s@);
    }
    Some(out)
}

fn nibble_str(v: u8) -> (r: &'static str)
    requires
        v < 16,
    ensures
        r@ == seq![nibble_char(v as nat)],
{
    proof {
        reveal_strlit("0");
        reveal_strlit("1");
        reveal_strlit("2");
        reveal_strlit("3");
        reveal_strlit("4");
        reveal_strlit("5");
        reveal_strlit("6");
        reveal_strlit("7");
        reveal_strlit("8");
        reveal_strlit("9");
        reveal_strlit("a");
        reveal_strlit("b");
        reveal_strlit("c");
        reveal_strlit("d");
        reveal_strlit("e");
        reveal_strlit("f");
    }
    let r = match v {
        0 => "0",
        1 => "1",
        2 => "2",
        3 => "3",
        4 => "4",
        5 => "5",
        6 => "6",
        7 => "7",
        8 => "8",
        9 => "9",
        10 => "a",
        11 => "b",
        12 => "c",
        13 => "d",
        14 => "e",
        _ => "f",
    };
    proof {
        assert(r@ =~= seq![nibble_char(v as nat)]);
    }
    r
}

/// Render a byte buffer for transport: "0x"-prefixed lowercase hex.
pub fn format_hex(b: &Vec<u8>) -> (r: String)
    ensures
        r@ == hex_text(b@),
{
    let mut s = String::from_str("0x");
    proof {
        reveal_strlit("0x");
        assert(s@ =~= seq!['0', 'x']);
    }
    let mut i: usize = 0;
    while i < b.len()
        invariant
            i <= b@.len(),
            s@ == seq!['0', 'x'] + hex_of(b@.take(i as int)),
        decreases b@.len() - i,
    {
        let byte = b[i];
        s.append(nibble_str(byte / 16));
        s.append(nibble_str(byte % 16));
        proof {
            let t = b@.take(i as int + 1);
            assert(t.drop_last() =~= b@.take(i as int));
            assert(t.last() == b@[i as int]);
            assert(s@ =~= seq!['0', 'x'] + hex_of(t));
        }
        i += 1;
    }
    proof {
        assert(b@.take(b@.len() as int) =~= b@);
        assert(s@ =~= hex_text(b@));
    }
    s
}

} // verus!
