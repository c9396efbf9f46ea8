use vstd::prelude::*;
use vstd::arithmetic::div_mod::{
    lemma_div_is_ordered, lemma_div_multiples_vanish, lemma_div_pos_is_pos,
    lemma_fundamental_div_mod,
};

verus! {

/// The sum of channel `c` over the first `k` pixels of an RGBA byte row.
pub open spec fn channel_sum(row: Seq<u8>, c: int, k: int) -> int
    decreases k,
{
    if k <= 0 {
        0
    } else {
        channel_sum(row, c, k - 1) + row[(k - 1) * 4 + c]
    }
}

proof fn lemma_channel_sum_bounds(row: Seq<u8>, c: int, k: int)
    requires
        0 <= c < 4,
        0 <= k,
        k * 4 <= row.len(),
    ensures
        0 <= channel_sum(row, c, k) <= 255 * k,
    decreases k,
{
    if k > 0 {
        lemma_channel_sum_bounds(row, c, k - 1);
    }
}

/// The average of each of the first three channels over a row of RGBA
/// pixels, as one byte per channel.
pub fn average_color(row: &Vec<u8>) -> (r: [u8; 3])
    requires
        row@.len() % 4 == 0,
        0 < row@.len(),
    ensures
        ({
            let count = row@.len() as int / 4;
            &&& r@[0] == channel_sum(row@, 0, count) / count
            &&& r@[1] == channel_sum(row@, 1, count) / count
            &&& r@[2] == channel_sum(row@, 2, count) / count
        }),
{
    let len = row.len();
    let count = len / 4;
    proof {
        lemma_fundamental_div_mod(len as int, 4);
    }
    let mut a0: u128 = 0;
    let mut a1: u128 = 0;
    let mut a2: u128 = 0;
    let mut p: usize = 0;
    while p < count
        invariant
            p <= count,
            count == row@.len() as int / 4,
            count * 4 == row@.len(),
            count <= row@.len(),
            row@.len() <= usize::MAX,
            a0 == channel_sum(row@, 0, p as int),
            a1 == channel_sum(row@, 1, p as int),
            a2 == channel_sum(row@, 2, p as int),
            a0 <= 255 * (p as int),
            a1 <= 255 * (p as int),
            a2 <= 255 * (p as int),
        decreases count - p,
    {
        let base = p * 4;
        a0 = a0 + row[base] as u128;
        a1 = a1 + row[base + 1] as u128;
        a2 = a2 + row[base + 2] as u128;
        p += 1;
    }
    proof {
        lemma_channel_sum_bounds(row@, 0, count as int);
        lemma_channel_sum_bounds(row@, 1, count as int);
        lemma_channel_sum_bounds(row@, 2, count as int);
        lemma_div_is_ordered(a0 as int, 255 * (count as int), count as int);
        lemma_div_is_ordered(a1 as int, 255 * (count as int), count as int);
        lemma_div_is_ordered(a2 as int, 255 * (count as int), count as int);
        lemma_div_multiples_vanish(255, count as int);
        assert((count as int) * 255 == 255 * (count as int));
        lemma_div_pos_is_pos(a0 as int, count as int);
        lemma_div_pos_is_pos(a1 as int, count as int);
        lemma_div_pos_is_pos(a2 as int, count as int);
    }
    let r0 = (a0 / (count as u128)) as u8;
    let r1 = (a1 / (count as u128)) as u8;
    let r2 = (a2 / (count as u128)) as u8;
    [r0, r1, r2]
}

/// The hexadecimal digit for a value below 16, upper case.
pub open spec fn hex_digit(n: int) -> char {
    if n == 0 {
        '0'
    } else if n == 1 {
        '1'
    } else if n == 2 {
        '2'
    } else if n == 3 {
        '3'
    } else if n == 4 {
        '4'
    } else if n == 5 {
        '5'
    } else if n == 6 {
        '6'
    } else if n == 7 {
        '7'
    } else if n == 8 {
        '8'
    } else if n == 9 {
        '9'
    } else if n == 10 {
        'A'
    } else if n == 11 {
        'B'
    } else if n == 12 {
        'C'
    } else if n == 13 {
        'D'
    } else if n == 14 {
        'E'
    } else {
        'F'
    }
}

/// The `#RRGGBB` form of a color, two upper-case digits per channel.
pub open spec fn hex_color(color: Seq<u8>) -> Seq<char> {
    seq![
        '#',
        hex_digit(color[0] as int / 16),
        hex_digit(color[0] as int % 16),
        hex_digit(color[1] as int / 16),
        hex_digit(color[1] as int % 16),
        hex_digit(color[2] as int / 16),
        hex_digit(color[2] as int % 16),
    ]
}

fn hex_digit_str(n: u8) -> (s: &'static str)
    requires
        n < 16,
    ensures
        s@.len() == 1,
        s@[0] == hex_digit(n as int),
{
    let s = match n {
        0 => "0",
        1 => "1",
        2 => "2",
        3 => "3",
        4 => "4",
        5 => "5",
        6 => "6",
        7 => "7",
        8 => "8",
        9 => "9",
        10 => "A",
        11 => "B",
        12 => "C",
        13 => "D",
        14 => "E",
        _ => "F",
    };
    proof {
        reveal_strlit("0");
        reveal_strlit("1");
        reveal_strlit("2");
        reveal_strlit("3");
        reveal_strlit("4");
        reveal_strlit("5");
        reveal_strlit("6");
        reveal_strlit("7");
        reveal_strlit("8");
        reveal_strlit("9");
        reveal_strlit("A");
        reveal_strlit("B");
        reveal_strlit("C");
        reveal_strlit("D");
        reveal_strlit("E");
        reveal_strlit("F");
    }
    s
}

/// The `#RRGGBB` hexadecimal form of a color.
pub fn color_to_hex(color: [u8; 3]) -> (r: String)
    ensures
        r@ == hex_color(color@),
{
    let mut out = String::from_str("#");
    proof {
        reveal_strlit("#");
    }
    out.append(hex_digit_str(color[0] / 16));
    out.append(hex_digit_str(color[0] % 16));
    out.append(hex_digit_str(color[1] / 16));
    out.append(hex_digit_str(color[1] % 16));
    out.append(hex_digit_str(color[2] / 16));
    out.append(hex_digit_str(color[2] % 16));
    proof {
        assert(color@[0] == color[0]);
        assert(color@[1] == color[1]);
        assert(color@[2] == color[2]);
        assert(out@ =~= hex_color(color@));
    }
    out
}

} // verus!
