//! Dotted numeric version strings and their total order.

use vstd::prelude::*;
use vstd::string::*;

verus! {

/// Whether `c` is an ASCII decimal digit.
pub open spec fn is_digit(c: char) -> bool {
    '0' <= c && c <= '9'
}

/// The numeric value of the decimal digit `c`.
pub open spec fn digit_value(c: char) -> nat {
    (c as u32 - '0' as u32) as nat
}

/// Whether every character of `s` is a decimal digit.
pub open spec fn all_digits(s: Seq<char>) -> bool {
    forall|i: int| 0 <= i < s.len() ==> is_digit(#[trigger] s[i])
}

/// The number that the decimal digits `s` spell, most significant first.
pub open spec fn digits_value(s: Seq<char>) -> nat
    decreases s.len(),
{
    if s.len() == 0 {
        0
    } else {
        digits_value(s.drop_last()) * 10 + digit_value(s.last())
    }
}

/// The value of one segment: its number when it is a non-empty run of
/// decimal digits whose value fits in 32 bits, and zero otherwise. A segment
/// with a sign (`+5`) is not a run of digits, so it counts as malformed.
pub open spec fn segment_value(s: Seq<char>) -> nat {
    if s.len() > 0 && all_digits(s) && digits_value(s) <= u32::MAX {
        digits_value(s)
    } else {
        0
    }
}

/// The pieces of `s` between dots, in order (always at least one piece).
pub open spec fn split_dots(s: Seq<char>) -> Seq<Seq<char>>
    decreases s.len(),
{
    if s.len() == 0 {
        seq![Seq::empty()]
    } else {
        let rest = split_dots(s.drop_last());
        if s.last() == '.' {
            rest.push(Seq::empty())
        } else {
            rest.update(rest.len() - 1, rest.last().push(s.last()))
        }
    }
}

/// The numeric segments of a version string.
pub open spec fn version_parts(s: Seq<char>) -> Seq<nat> {
    split_dots(s).map_values(|seg: Seq<char>| segment_value(seg))
}

/// Segment `i` of `p`, where segments past the end count as zero.
pub open spec fn part_at(p: Seq<nat>, i: int) -> nat {
    if 0 <= i < p.len() {
        p[i]
    } else {
        0
    }
}

/// The larger of the two lengths.
pub open spec fn max_len(a: Seq<nat>, b: Seq<nat>) -> nat {
    if a.len() >= b.len() {
        a.len()
    } else {
        b.len()
    }
}

/// Compares `a` and `b` segment by segment from index `i` on: -1, 0 or 1.
pub open spec fn compare_from(a: Seq<nat>, b: Seq<nat>, i: nat) -> int
    decreases max_len(a, b) - i,
{
    if i >= max_len(a, b) {
        0
    } else if part_at(a, i as int) < part_at(b, i as int) {
        -1
    } else if part_at(a, i as int) > part_at(b, i as int) {
        1
    } else {
        compare_from(a, b, i + 1)
    }
}

/// The order of two version strings: -1 when `a` is older, 1 when newer,
/// 0 when equal after padding the shorter one with zero segments.
pub open spec fn version_order(a: Seq<char>, b: Seq<char>) -> int {
    compare_from(version_parts(a), version_parts(b), 0)
}

proof fn lemma_split_dots_nonempty(s: Seq<char>)
    ensures
        split_dots(s).len() >= 1,
    decreases s.len(),
{
    if s.len() > 0 {
        lemma_split_dots_nonempty(s.drop_last());
    }
}

proof fn lemma_compare_from(a: Seq<nat>, b: Seq<nat>, i: nat)
    ensures
        compare_from(a, b, i) == -compare_from(b, a, i),
        compare_from(a, a, i) == 0,
        -1 <= compare_from(a, b, i) <= 1,
    decreases max_len(a, b) - i,
{
    if i < max_len(a, b) {
        lemma_compare_from(a, b, i + 1);
    }
}

/// Comparing two version strings in the other order negates the result, and
/// every version string is equal to itself.
pub proof fn lemma_version_order_antisymmetric(a: &str, b: &str)
    ensures
        version_order(a@, b@) == -version_order(b@, a@),
        version_order(a@, a@) == 0,
{
    lemma_compare_from(version_parts(a@), version_parts(b@), 0);
    lemma_compare_from(version_parts(a@), version_parts(a@), 0);
}

/// Parses the dot-separated segments of `v`; a segment that is not a number
/// fitting in 32 bits counts as zero.
pub fn parse_version(v: &str) -> (r: Vec<u32>)
    ensures
        r@.map_values(|x: u32| x as nat) == version_parts(v@),
{
    let n = v.unicode_len();
    let mut parts: Vec<u32> = Vec::new();
    let mut cur_len: usize = 0;
    let mut cur_ok: bool = true;
    let mut cur_val: u32 = 0;
    let mut i: usize = 0;
    while i < n
        invariant
            n == v@.len(),
            i <= n,
            cur_len <= i,
            split_dots(v@.take(i as int)).len() == parts@.len() + 1,
            forall|k: int|
                0 <= k < parts@.len() ==> parts@[k] as nat == segment_value(
                    #[trigger] split_dots(v@.take(i as int))[k],
                ),
            cur_len == split_dots(v@.take(i as int)).last().len(),
            cur_ok == (all_digits(split_dots(v@.take(i as int)).last()) && digits_value(
                split_dots(v@.take(i as int)).last(),
            ) <= u32::MAX),
            cur_ok ==> cur_val as nat == digits_value(split_dots(v@.take(i as int)).last()),
        decreases n - i,
    {
        let c = v.get_char(i);
        proof {
            let pre = v@.take(i as int);
            let post = v@.take(i as int + 1);
            assert(post.drop_last() =~= pre);
            assert(post.last() == c);
            lemma_split_dots_nonempty(pre);
        }
        let ghost cur = split_dots(v@.take(i as int)).last();
        if c == '.' {
            if cur_len > 0 && cur_ok {
                parts.push(cur_val);
            } else {
                parts.push(0);
            }
            cur_len = 0;
            cur_ok = true;
            cur_val = 0;
            proof {
                let sd = split_dots(v@.take(i as int + 1));
                assert(all_digits(sd.last()));
                assert(forall|k: int|
                    0 <= k < parts@.len() ==> parts@[k] as nat == segment_value(
                        #[trigger] sd[k],
                    ));
            }
        } else {
            proof {
                let next = cur.push(c);
                assert(next.drop_last() =~= cur);
                assert(all_digits(next) == (all_digits(cur) && is_digit(c))) by {
                    if all_digits(next) {
                        assert forall|j: int| 0 <= j < cur.len() implies is_digit(cur[j]) by {
                            assert(next[j] == cur[j]);
                        }
                        assert(next[cur.len() as int] == c);
                    }
                }
                assert(digits_value(next) >= digits_value(cur));
            }
            if cur_ok && '0' <= c && c <= '9' {
                let d: u64 = (c as u32 - '0' as u32) as u64;
                let nv: u64 = cur_val as u64 * 10 + d;
                if nv <= u32::MAX as u64 {
                    cur_val = nv as u32;
                } else {
                    cur_ok = false;
                }
            } else {
                cur_ok = false;
            }
            cur_len = cur_len + 1;
            proof {
                let sd = split_dots(v@.take(i as int + 1));
                assert(forall|k: int|
                    0 <= k < parts@.len() ==> parts@[k] as nat == segment_value(
                        #[trigger] sd[k],
                    ));
            }
        }
        i = i + 1;
    }
    proof {
        assert(v@.take(n as int) =~= v@);
    }
    let last = if cur_len > 0 && cur_ok {
        cur_val
    } else {
        0
    };
    parts.push(last);
    proof {
        let sd = split_dots(v@);
        assert(parts@.map_values(|x: u32| x as nat) =~= version_parts(v@)) by {
            assert forall|k: int| 0 <= k < parts@.len() implies parts@[k] as nat
                == segment_value(#[trigger] sd[k]) by {}
        }
    }
    parts
}

/// Compares two dotted version strings segment by segment as numbers,
/// padding the shorter with zeros: -1 when `v1` is older, 0 when equal, 1 when
/// newer. Malformed segments count as zero.
pub fn compare_versions(v1: &str, v2: &str) -> (r: i32)
    ensures
        r as int == version_order(v1@, v2@),
        -1 <= r <= 1,
{
    let p1 = parse_version(v1);
    let p2 = parse_version(v2);
    let ghost a = version_parts(v1@);
    let ghost b = version_parts(v2@);
    let n: usize = if p1.len() >= p2.len() {
        p1.len()
    } else {
        p2.len()
    };
    proof {
        lemma_compare_from(a, b, 0);
        assert(a.len() == p1@.len() && b.len() == p2@.len());
    }
    let mut i: usize = 0;
    while i < n
        invariant
            n == max_len(a, b),
            a == version_parts(v1@),
            b == version_parts(v2@),
            i <= n,
            a == p1@.map_values(|x: u32| x as nat),
            b == p2@.map_values(|x: u32| x as nat),
            compare_from(a, b, 0) == compare_from(a, b, i as nat),
        decreases n - i,
    {
        let x: u32 = if i < p1.len() {
            p1[i]
        } else {
            0
        };
        let y: u32 = if i < p2.len() {
            p2[i]
        } else {
            0
        };
        assert(x as nat == part_at(a, i as int));
        assert(y as nat == part_at(b, i as int));
        if x < y {
            assert(compare_from(a, b, i as nat) == -1);
            return -1;
        } else if x > y {
            assert(compare_from(a, b, i as nat) == 1);
            return 1;
        }
        i = i + 1;
    }
    0
}

} // verus!
