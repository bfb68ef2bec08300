//! Numbers for people.

use vstd::prelude::*;
use vstd::string::*;
use crate::float::{nearest, Real};
use crate::http::second_word;
use crate::route::{capped, hundredth_text, hundredths};
use crate::text::{at, chars_of, decimal, decimal_of, is_at, join, parse_unsigned, substring, unsigned_of, word};

verus! {

/// How many times a number of bytes is divided by 1024 to be shown, at most four times.
pub open spec fn scale_of(v: int) -> int {
    if v < 1024 {
        0
    } else if v < 1_048_576 {
        1
    } else if v < 1_073_741_824 {
        2
    } else if v < 1_099_511_627_776 {
        3
    } else {
        4
    }
}

/// The name of a unit.
pub open spec fn unit_of(i: int) -> Seq<char> {
    if i == 0 {
        "B"@
    } else if i == 1 {
        "KB"@
    } else if i == 2 {
        "MB"@
    } else if i == 3 {
        "GB"@
    } else {
        "TB"@
    }
}

/// The size of a unit.
pub open spec fn unit_size(i: int) -> int {
    if i == 0 {
        1
    } else if i == 1 {
        1024
    } else if i == 2 {
        1_048_576
    } else if i == 3 {
        1_073_741_824
    } else {
        1_099_511_627_776
    }
}

/// A quotient rounded to the nearest whole number, to the even one of two that are as near.
pub open spec fn rounded(n: int, d: int) -> int {
    let q = n / d;
    let r = n % d;
    if 2 * r > d || (2 * r == d && q % 2 == 1) {
        q + 1
    } else {
        q
    }
}

/// A number of bytes, in the largest unit of which it has one, with two decimals. The
/// number is taken as a double first, which holds it exactly up to 2^53.
pub open spec fn human_of(bytes: u64) -> Seq<char> {
    let v = nearest(bytes);
    let i = scale_of(v);
    if i == 0 {
        decimal_of(bytes as nat) + " B"@
    } else {
        hundredths(rounded(v * 100, unit_size(i)) as nat) + (" "@ + unit_of(i))
    }
}

/// Human-readable byte count.
pub fn human(bytes: u64) -> (r: String)
    ensures
        r@ == human_of(bytes),
{
    // The nearest double of the largest numbers is one more than a word holds.
    let near: u64 = Real::Pos(bytes).to_word();
    let v: u128 = if near == u64::MAX {
        0x1_0000_0000_0000_0000
    } else {
        near as u128
    };
    proof {
        lemma_near(bytes);
    }
    assert(v == nearest(bytes));
    if v < 1024 {
        return join(decimal(bytes).as_str(), " B");
    }
    let (size, unit): (u128, &str) = if v < 1_048_576 {
        (1024, "KB")
    } else if v < 1_073_741_824 {
        (1_048_576, "MB")
    } else if v < 1_099_511_627_776 {
        (1_073_741_824, "GB")
    } else {
        (1_099_511_627_776, "TB")
    };
    let n: u128 = v * 100;
    let q: u128 = n / size;
    let rest: u128 = n % size;
    let x: u128 = if 2 * rest > size || (2 * rest == size && q % 2 == 1) {
        q + 1
    } else {
        q
    };
    assert(q <= 2_000_000_000) by {
        if size == 1024 {
            assert(n / 1024 <= 2_000_000_000);
        } else if size == 1_048_576 {
            assert(n / 1_048_576 <= 2_000_000_000);
        } else if size == 1_073_741_824 {
            assert(n / 1_073_741_824 <= 2_000_000_000);
        } else {
            assert(n / 1_099_511_627_776 <= 2_000_000_000);
        }
    }
    assert(x == rounded(v * 100, size as int));
    let tail = join(" ", unit);
    join(hundredth_text(x as u64).as_str(), tail.as_str())
}

proof fn lemma_near(n: u64)
    ensures
        nearest(n) <= 0x1_0000_0000_0000_0000,
        nearest(n) == u64::MAX ==> false,
        n < 1024 ==> nearest(n) == n,
{
    let g = crate::float::grain(n);
    let q = n as int / g;
    let r = n as int % g;
    assert(q * g + r == n) by (nonlinear_arith)
        requires
            g > 0,
            q == n as int / g,
            r == n as int % g,
    ;
    assert((q + 1) * g == q * g + g) by (nonlinear_arith);
    lemma_grain(n);
}

proof fn lemma_grain(n: u64)
    ensures
        ({
            let g = crate::float::grain(n);
            let q = n as int / g;
            &&& g >= 1
            &&& q * g <= n
            &&& n >= 0x8000_0000_0000_0000 ==> (q * g) % 2048 == 0 && (q + 1) * g <= 0x1_0000_0000_0000_0000
            &&& n < 0x8000_0000_0000_0000 ==> (q + 1) * g <= 0x8000_0000_0000_0000 + 2048
        }),
{
    let g = crate::float::grain(n);
    let q = n as int / g;
    assert(q * g <= n) by (nonlinear_arith)
        requires
            g > 0,
            q == n as int / g,
            n >= 0,
    ;
    assert((q + 1) * g == q * g + g) by (nonlinear_arith);
}

/// The number on the first line that starts with `VmHWM:`, from `i` on, of a process's
/// status: its second word, in kilobytes.
pub open spec fn peak_in(s: Seq<char>, i: int) -> Option<nat>
    decreases s.len() - i,
{
    if i < 0 || i > s.len() {
        None
    } else {
        let end = line_end(s, i);
        let line = s.subrange(i, end);
        if is_at(line, 0, "VmHWM:"@) {
            unsigned_of(second_word(line), u64::MAX as nat)
        } else if end >= s.len() {
            None
        } else {
            proof {
                lemma_line_end(s, i);
            }
            peak_in(s, end + 1)
        }
    }
}

/// Where a line ends.
pub open spec fn line_end(s: Seq<char>, i: int) -> int
    decreases s.len() - i,
{
    if 0 <= i < s.len() && s[i] != '\n' {
        line_end(s, i + 1)
    } else {
        i
    }
}

/// A line ends where it begins or behind that, and within the text.
pub proof fn lemma_line_end(s: Seq<char>, i: int)
    requires
        0 <= i <= s.len(),
    ensures
        i <= line_end(s, i) <= s.len(),
    decreases s.len() - i,
{
    if i < s.len() && s[i] != '\n' {
        lemma_line_end(s, i + 1);
    }
}

/// Peak resident set size in bytes, read from a process's status, or 0 where it does not
/// say.
pub fn peak_rss(status: &str) -> (r: u64)
    ensures
        r == (match peak_in(status@, 0) {
            Some(kb) => capped(kb * 1024),
            None => 0,
        }),
{
    let c = chars_of(status);
    let mut i: usize = 0;
    loop
        invariant
            c@ == status@,
            i <= c@.len(),
            peak_in(status@, 0) == peak_in(status@, i as int),
        decreases c@.len() - i,
    {
        let mut end: usize = i;
        while end < c.len() && c[end] != '\n'
            invariant
                i <= end <= c@.len(),
                line_end(c@, i as int) == line_end(c@, end as int),
            decreases c@.len() - end,
        {
            end += 1;
        }
        if at(c.as_slice(), i, "VmHWM:") && end - i >= 6 {
            proof {
                reveal_strlit("VmHWM:");
                let line = c@.subrange(i as int, end as int);
                assert(line.subrange(0, 6) =~= c@.subrange(i as int, i + 6));
                assert(is_at(line, 0, "VmHWM:"@));
            }
            let line = substring(c.as_slice(), i, end);
            let rest = crate::http::after_word(line.as_str());
            let w = word(rest.as_str());
            return match parse_unsigned(w.as_str(), u64::MAX) {
                Some(kb) => {
                    if kb > u64::MAX / 1024 {
                        u64::MAX
                    } else {
                        kb * 1024
                    }
                },
                None => 0,
            };
        }
        proof {
            reveal_strlit("VmHWM:");
            let line = c@.subrange(i as int, end as int);
            if is_at(line, 0, "VmHWM:"@) {
                assert(line.subrange(0, 6) =~= c@.subrange(i as int, i + 6));
            }
        }
        if end == c.len() {
            return 0;
        }
        i = end + 1;
    }
}

} // verus!
