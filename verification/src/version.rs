//! Semantic version identifiers: a well-formed three-part version with
//! structural equality, a total order on (major, minor, patch), and a
//! verified parser for the canonical `"major.minor.patch"` form.

use vstd::prelude::*;

verus! {

/// A three-part semantic version. Equality is structural; the order is
/// lexicographic on (major, minor, patch).
#[derive(Clone, Copy, Debug, PartialEq, Eq, Hash, Structural)]
pub struct VersionWrapper {
    pub major: u64,
    pub minor: u64,
    pub patch: u64,
}

/// Lexicographic order on (major, minor, patch).
pub open spec fn version_le(a: VersionWrapper, b: VersionWrapper) -> bool {
    if a.major != b.major {
        a.major < b.major
    } else if a.minor != b.minor {
        a.minor < b.minor
    } else {
        a.patch <= b.patch
    }
}

impl VersionWrapper {
    pub fn new(major: u64, minor: u64, patch: u64) -> (r: VersionWrapper)
        ensures
            r == (VersionWrapper { major, minor, patch }),
    {
        VersionWrapper { major, minor, patch }
    }

    /// True when `self` is at most `other` in the lexicographic order.
    pub fn le(&self, other: &VersionWrapper) -> (r: bool)
        ensures
            r == version_le(*self, *other),
    {
        if self.major != other.major {
            self.major < other.major
        } else if self.minor != other.minor {
            self.minor < other.minor
        } else {
            self.patch <= other.patch
        }
    }
}

/// A decimal digit character.
pub open spec fn is_digit(c: char) -> bool {
    '0' <= c && c <= '9'
}

/// The numeric value of a decimal digit character.
pub open spec fn digit_val(c: char) -> nat {
    ((c as int) - ('0' as int)) as nat
}

/// Every character of `s` is a decimal digit.
pub open spec fn all_digits(s: Seq<char>) -> bool {
    forall|k: int| 0 <= k < s.len() ==> is_digit(#[trigger] s[k])
}

/// The value of a digit sequence read in base ten, most significant first.
pub open spec fn dec_val(s: Seq<char>) -> nat
    decreases s.len(),
{
    if s.len() == 0 {
        0
    } else {
        dec_val(s.drop_last()) * 10 + digit_val(s.last())
    }
}

/// A prefix of a digit sequence never exceeds the whole sequence's value.
proof fn lemma_dec_val_prefix_le(s: Seq<char>, i: int)
    requires
        0 <= i <= s.len(),
    ensures
        dec_val(s.subrange(0, i)) <= dec_val(s),
    decreases s.len() - i,
{
    if i == s.len() {
        assert(s.subrange(0, i) =~= s);
    } else {
        let t = s.subrange(0, i + 1);
        assert(t.drop_last() =~= s.subrange(0, i));
        assert(dec_val(s.subrange(0, i)) <= dec_val(t));
        lemma_dec_val_prefix_le(s, i + 1);
    }
}

/// `s` is `"<major>.<minor>.<patch>"` with dots exactly at `i` and `j`,
/// three nonempty digit runs, and each component value fitting in a `u64`.
pub open spec fn version_dots_at(s: Seq<char>, i: int, j: int) -> bool {
    &&& 0 < i
    &&& i + 1 < j
    &&& j + 1 < s.len()
    &&& s[i] == '.'
    &&& s[j] == '.'
    &&& forall|k: int| 0 <= k < s.len() && k != i && k != j ==> #[trigger] s[k] != '.'
    &&& all_digits(s.subrange(0, i))
    &&& all_digits(s.subrange(i + 1, j))
    &&& all_digits(s.subrange(j + 1, s.len() as int))
    &&& dec_val(s.subrange(0, i)) <= u64::MAX
    &&& dec_val(s.subrange(i + 1, j)) <= u64::MAX
    &&& dec_val(s.subrange(j + 1, s.len() as int)) <= u64::MAX
}

/// `s` is a canonical three-part version string.
pub open spec fn is_canonical_version(s: Seq<char>) -> bool {
    exists|i: int, j: int| version_dots_at(s, i, j)
}

/// `v` holds the three component values written in `s`.
pub open spec fn version_matches(s: Seq<char>, v: VersionWrapper) -> bool {
    exists|i: int, j: int|
        {
            &&& #[trigger] version_dots_at(s, i, j)
            &&& v.major == dec_val(s.subrange(0, i))
            &&& v.minor == dec_val(s.subrange(i + 1, j))
            &&& v.patch == dec_val(s.subrange(j + 1, s.len() as int))
        }
}

/// The dot positions of a canonical version string are unique, so
/// `version_matches` pins the parsed value.
pub proof fn lemma_version_dots_unique(s: Seq<char>, i1: int, j1: int, i2: int, j2: int)
    requires
        version_dots_at(s, i1, j1),
        version_dots_at(s, i2, j2),
    ensures
        i1 == i2,
        j1 == j2,
{
    assert(s[i1] == '.');
    assert(s[j1] == '.');
    assert(s[i2] == '.');
    assert(s[j2] == '.');
}

/// Parses a nonempty run of decimal digits as a `u64`; `None` when some
/// character is not a digit, the run is empty, or the value overflows.
fn parse_u64_digits(s: &str) -> (r: Option<u64>)
    ensures
        match r {
            Some(v) => s@.len() > 0 && all_digits(s@) && dec_val(s@) <= u64::MAX && v == dec_val(
                s@,
            ),
            None => !(s@.len() > 0 && all_digits(s@) && dec_val(s@) <= u64::MAX),
        },
{
    let n = s.unicode_len();
    if n == 0 {
        return None;
    }
    let mut val: u64 = 0;
    let mut i: usize = 0;
    while i < n
        invariant
            0 <= i <= n,
            n == s@.len(),
            all_digits(s@.subrange(0, i as int)),
            val == dec_val(s@.subrange(0, i as int)),
        decreases n - i,
    {
        let c = s.get_char(i);
        if c < '0' || c > '9' {
            assert(!is_digit(s@[i as int]));
            return None;
        }
        let d: u64 = (c as u32 as u64) - 48;
        assert(d == digit_val(s@[i as int]));
        if val > (u64::MAX - d) / 10 {
            proof {
                let t = s@.subrange(0, i + 1);
                assert(t.drop_last() =~= s@.subrange(0, i as int));
                assert(dec_val(t) == val * 10 + d);
                assert(dec_val(t) > u64::MAX) by {
                    assert(val >= (u64::MAX - d) / 10 + 1);
                    assert(val * 10 >= ((u64::MAX - d) / 10 + 1) * 10) by (nonlinear_arith)
                        requires
                            val >= (u64::MAX - d) / 10 + 1,
                    ;
                    assert(((u64::MAX - d) / 10 + 1) * 10 > u64::MAX - d) by (nonlinear_arith)
                        requires
                            d <= 9,
                    ;
                }
                lemma_dec_val_prefix_le(s@, i + 1);
            }
            return None;
        }
        proof {
            let t = s@.subrange(0, i + 1);
            assert(t.drop_last() =~= s@.subrange(0, i as int));
            assert(t.last() == s@[i as int]);
            assert(val * 10 + d <= u64::MAX) by {
                assert(val <= (u64::MAX - d) / 10);
                assert(val * 10 <= ((u64::MAX - d) / 10) * 10) by (nonlinear_arith)
                    requires
                        val <= (u64::MAX - d) / 10,
                ;
                assert(((u64::MAX - d) / 10) * 10 <= u64::MAX - d);
            }
        }
        val = val * 10 + d;
        i = i + 1;
    }
    proof {
        assert(s@.subrange(0, n as int) =~= s@);
    }
    Some(val)
}

/// Returns the least index of `c` in `s` at or after `from`, if any.
pub(crate) fn find_char(s: &str, c: char, from: usize) -> (r: Option<usize>)
    requires
        from <= s@.len(),
    ensures
        match r {
            Some(i) => from <= i < s@.len() && s@[i as int] == c && forall|k: int|
                from <= k < i ==> #[trigger] s@[k] != c,
            None => forall|k: int| from <= k < s@.len() ==> #[trigger] s@[k] != c,
        },
{
    let n = s.unicode_len();
    let mut i: usize = from;
    while i < n
        invariant
            from <= i <= n,
            n == s@.len(),
            forall|k: int| from <= k < i ==> #[trigger] s@[k] != c,
        decreases n - i,
    {
        if s.get_char(i) == c {
            return Some(i);
        }
        i = i + 1;
    }
    None
}

/// Parses a canonical `"major.minor.patch"` string.
pub fn parse_version(s: &str) -> (r: Option<VersionWrapper>)
    ensures
        match r {
            Some(v) => is_canonical_version(s@) && version_matches(s@, v),
            None => !is_canonical_version(s@),
        },
{
    let n = s.unicode_len();
    let i = match find_char(s, '.', 0) {
        Some(i) => i,
        None => {
            proof {
                assert forall|p: int, q: int| !version_dots_at(s@, p, q) by {
                    if 0 <= p < s@.len() {
                        assert(s@[p] != '.');
                    }
                }
            }
            return None;
        },
    };
    let j = match find_char(s, '.', i + 1) {
        Some(j) => j,
        None => {
            proof {
                assert forall|p: int, q: int| !version_dots_at(s@, p, q) by {
                    if version_dots_at(s@, p, q) {
                        assert(s@[p] == '.');
                        assert(s@[q] == '.');
                        assert(p == i);
                        assert(s@[q] != '.');
                    }
                }
            }
            return None;
        },
    };
    // any further dot makes the string non-canonical
    match find_char(s, '.', j + 1) {
        Some(extra) => {
            proof {
                assert forall|p: int, q: int| !version_dots_at(s@, p, q) by {
                    if version_dots_at(s@, p, q) {
                        assert(s@[p] == '.');
                        assert(s@[q] == '.');
                        assert(p == i);
                        assert(q == j);
                        assert(s@[extra as int] != '.');
                    }
                }
            }
            return None;
        },
        None => {},
    }
    let major_str = s.substring_char(0, i);
    let minor_str = s.substring_char(i + 1, j);
    let patch_str = s.substring_char(j + 1, n);
    let major = parse_u64_digits(major_str);
    let minor = parse_u64_digits(minor_str);
    let patch = parse_u64_digits(patch_str);
    match (major, minor, patch) {
        (Some(ma), Some(mi), Some(pa)) => {
            let v = VersionWrapper { major: ma, minor: mi, patch: pa };
            proof {
                assert(version_dots_at(s@, i as int, j as int));
                assert(version_matches(s@, v));
            }
            Some(v)
        },
        _ => {
            proof {
                assert forall|p: int, q: int| !version_dots_at(s@, p, q) by {
                    if version_dots_at(s@, p, q) {
                        assert(s@[p] == '.');
                        assert(s@[q] == '.');
                        assert(p == i);
                        assert(q == j);
                    }
                }
            }
            None
        },
    }
}

/// The character of one decimal digit.
pub open spec fn digit_char(d: nat) -> char {
    if d == 0 {
        '0'
    } else if d == 1 {
        '1'
    } else if d == 2 {
        '2'
    } else if d == 3 {
        '3'
    } else if d == 4 {
        '4'
    } else if d == 5 {
        '5'
    } else if d == 6 {
        '6'
    } else if d == 7 {
        '7'
    } else if d == 8 {
        '8'
    } else {
        '9'
    }
}

/// The decimal spelling of `n`, most significant digit first, without
/// leading zeros.
pub open spec fn dec_str(n: nat) -> Seq<char>
    decreases n,
{
    if n < 10 {
        seq![digit_char(n)]
    } else {
        dec_str(n / 10).push(digit_char(n % 10))
    }
}

/// The canonical spelling of a version: `"major.minor.patch"`.
pub open spec fn version_str(v: VersionWrapper) -> Seq<char> {
    dec_str(v.major as nat) + seq!['.'] + dec_str(v.minor as nat) + seq!['.'] + dec_str(
        v.patch as nat,
    )
}

/// One digit as a string slice.
fn digit_str(d: u64) -> (r: &'static str)
    requires
        d < 10,
    ensures
        r@ == seq![digit_char(d as nat)],
{
    let r: &'static str = match d {
        0 => "0",
        1 => "1",
        2 => "2",
        3 => "3",
        4 => "4",
        5 => "5",
        6 => "6",
        7 => "7",
        8 => "8",
        _ => "9",
    };
    proof {
        reveal_strlit("0");
        reveal_strlit("1");
        reveal_strlit("2");
        reveal_strlit("3");
        reveal_strlit("4");
        reveal_strlit("5");
        reveal_strlit("6");
        reveal_strlit("7");
        reveal_strlit("8");
        reveal_strlit("9");
        assert(r@ =~= seq![digit_char(d as nat)]);
    }
    r
}

/// Writes `n` in decimal.
pub fn u64_dec_string(n: u64) -> (r: String)
    ensures
        r@ == dec_str(n as nat),
    decreases n,
{
    if n < 10 {
        let s = digit_str(n);
        s.to_owned()
    } else {
        proof {
            assert(n / 10 < n) by (nonlinear_arith)
                requires
                    n >= 10,
            ;
        }
        let mut s = u64_dec_string(n / 10);
        s.append(digit_str(n % 10));
        proof {
            assert(s@ =~= dec_str(n as nat));
        }
        s
    }
}

impl VersionWrapper {
    /// The canonical `"major.minor.patch"` spelling of this version.
    pub fn to_string(&self) -> (r: String)
        ensures
            r@ == version_str(*self),
    {
        let mut s = u64_dec_string(self.major);
        s.append(".");
        let minor = u64_dec_string(self.minor);
        s.append(minor.as_str());
        s.append(".");
        let patch = u64_dec_string(self.patch);
        s.append(patch.as_str());
        proof {
            reveal_strlit(".");
            assert(s@ =~= version_str(*self));
        }
        s
    }
}

} // verus!
