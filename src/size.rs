use vstd::prelude::*;
use vstd::utf8::encode_utf8;

verus! {

/// The tab byte that ends the size field of the disk-usage tool's output.
pub const TAB: u8 = 9;

/// The block size, in bytes, of the disk-usage tool's block mode.
pub const BLOCK_SIZE: u64 = 1024;

pub open spec fn is_digit(c: u8) -> bool {
    48 <= c <= 57
}

/// The value of a run of decimal digits.
pub open spec fn digits_value(s: Seq<u8>) -> nat
    decreases s.len(),
{
    if s.len() == 0 {
        0
    } else {
        digits_value(s.drop_last()) * 10 + (s.last() - 48) as nat
    }
}

/// The digits of an unsigned number's text: all of it, past one leading `+`.
pub open spec fn unsigned_digits(s: Seq<u8>) -> Seq<u8> {
    if s.len() > 0 && s[0] == 43 {
        s.drop_first()
    } else {
        s
    }
}

/// The text is an unsigned number: an optional `+` and one or more digits.
pub open spec fn is_unsigned_text(s: Seq<u8>) -> bool {
    let d = unsigned_digits(s);
    d.len() > 0 && forall|i: int| 0 <= i < d.len() ==> is_digit(d[i])
}

/// What reading `s` as a `u64` gives: its value, when it is an unsigned
/// number that fits.
pub open spec fn parsed_u64(s: Seq<u8>) -> Option<u64> {
    if is_unsigned_text(s) && digits_value(unsigned_digits(s)) <= u64::MAX {
        Some(digits_value(unsigned_digits(s)) as u64)
    } else {
        None
    }
}

/// `k` is where the first field of `s` ends: at the first tab, or at the end.
pub open spec fn is_field_end(s: Seq<u8>, k: int) -> bool {
    0 <= k <= s.len() && (forall|j: int| 0 <= j < k ==> s[j] != TAB) && (k == s.len() || s[k]
        == TAB)
}

/// The text before the first tab.
pub open spec fn first_field(s: Seq<u8>) -> Seq<u8> {
    s.subrange(0, choose|k: int| is_field_end(s, k))
}

/// The size that the tool's output states, in bytes: its first field read
/// as a number of `unit`-byte units, when that is a number and the product
/// fits in a `u64`.
pub open spec fn reported_size(out: Seq<char>, unit: u64) -> Option<u64> {
    match parsed_u64(first_field(encode_utf8(out))) {
        Some(v) => if v * unit <= u64::MAX {
            Some((v * unit) as u64)
        } else {
            None
        },
        None => None,
    }
}

/// The sum of a sequence of sizes.
pub open spec fn total(s: Seq<u64>) -> nat
    decreases s.len(),
{
    if s.len() == 0 {
        0
    } else {
        total(s.drop_last()) + s.last() as nat
    }
}

/// Reads the bytes as a `u64` in decimal, with an optional leading `+`.
pub fn parse_u64(s: &[u8]) -> (r: Option<u64>)
    ensures
        r == parsed_u64(s@),
{
    let start: usize = if s.len() > 0 && s[0] == 43 { 1 } else { 0 };
    let ghost d = unsigned_digits(s@);
    assert(d =~= s@.subrange(start as int, s@.len() as int));
    if start >= s.len() {
        return None;
    }
    let mut v: u64 = 0;
    let mut i: usize = start;
    while i < s.len()
        invariant
            start <= i <= s@.len(),
            d == s@.subrange(start as int, s@.len() as int),
            d == unsigned_digits(s@),
            forall|j: int| start <= j < i ==> is_digit(s@[j]),
            v as nat == digits_value(s@.subrange(start as int, i as int)),
        decreases s.len() - i,
    {
        let c = s[i];
        assert(s@.subrange(start as int, i + 1).drop_last() =~= s@.subrange(start as int, i as int));
        if c < 48 || c > 57 {
            assert(d[i - start] == s@[i as int]);
            assert(!is_digit(d[i - start]));
            assert(!is_unsigned_text(s@));
            return None;
        }
        let digit = (c - 48) as u64;
        if v > (u64::MAX - digit) / 10 {
            proof {
                assert(digits_value(s@.subrange(start as int, i + 1)) > u64::MAX) by (nonlinear_arith)
                    requires
                        digits_value(s@.subrange(start as int, i + 1)) == v * 10 + digit,
                        v > (u64::MAX - digit) / 10,
                        digit <= 9,
                ;
                if is_unsigned_text(s@) {
                    lemma_digits_value_grows(d, i + 1 - start);
                    assert(d.subrange(0, i + 1 - start) =~= s@.subrange(start as int, i + 1));
                }
            }
            return None;
        }
        v = v * 10 + digit;
        i = i + 1;
    }
    assert(s@.subrange(start as int, i as int) =~= d);
    Some(v)
}

/// A longer run of digits is worth no less than its prefix.
proof fn lemma_digits_value_grows(s: Seq<u8>, k: int)
    requires
        0 <= k <= s.len(),
        forall|j: int| 0 <= j < s.len() ==> is_digit(s[j]),
    ensures
        digits_value(s.subrange(0, k)) <= digits_value(s),
    decreases s.len() - k,
{
    if k < s.len() {
        lemma_digits_value_grows(s.drop_last(), if k < s.len() { k } else { 0 });
        assert(s.drop_last().subrange(0, k) =~= s.subrange(0, k));
    } else {
        assert(s.subrange(0, k) =~= s);
    }
}

/// Reads the size that the disk-usage tool printed: the number before the
/// first tab, counted in `unit`-byte units (1 in byte mode, the block size
/// in block mode). `None` where it is no number, or the size overflows.
pub fn parse_du_output(out: &str, unit: u64) -> (r: Option<u64>)
    ensures
        r == reported_size(out@, unit),
{
    let b = out.as_bytes();
    let mut k: usize = 0;
    while k < b.len() && b[k] != TAB
        invariant
            b@ == encode_utf8(out@),
            k <= b@.len(),
            forall|j: int| 0 <= j < k ==> b@[j] != TAB,
        decreases b.len() - k,
    {
        k = k + 1;
    }
    proof {
        assert(is_field_end(b@, k as int));
        let c = choose|c: int| is_field_end(b@, c);
        assert(c == k);
    }
    let field = slice_prefix(b, k);
    match parse_u64(field) {
        Some(v) => v.checked_mul(unit),
        None => None,
    }
}

fn slice_prefix(b: &[u8], k: usize) -> (r: &[u8])
    requires
        k <= b@.len(),
    ensures
        r@ == b@.subrange(0, k as int),
{
    let (head, _) = b.split_at(k);
    head
}

/// Sums the sizes of the regular files of a tree, as the manual walk found
/// them. `None` where the sum overflows a `u64`.
pub fn sum_file_sizes(sizes: &Vec<u64>) -> (r: Option<u64>)
    ensures
        r == (if total(sizes@) <= u64::MAX {
            Some(total(sizes@) as u64)
        } else {
            None
        }),
{
    let mut acc: u64 = 0;
    let mut i: usize = 0;
    while i < sizes.len()
        invariant
            i <= sizes@.len(),
            acc as nat == total(sizes@.subrange(0, i as int)),
        decreases sizes.len() - i,
    {
        assert(sizes@.subrange(0, i + 1).drop_last() =~= sizes@.subrange(0, i as int));
        match acc.checked_add(sizes[i]) {
            Some(n) => {
                acc = n;
            },
            None => {
                proof {
                    lemma_total_grows(sizes@, i + 1);
                }
                return None;
            },
        }
        i = i + 1;
    }
    assert(sizes@.subrange(0, i as int) =~= sizes@);
    Some(acc)
}

/// The sum of a prefix is at most the sum of the whole.
proof fn lemma_total_grows(s: Seq<u64>, k: int)
    requires
        0 <= k <= s.len(),
    ensures
        total(s.subrange(0, k)) <= total(s),
    decreases s.len() - k,
{
    if k < s.len() {
        lemma_total_grows(s.drop_last(), k);
        assert(s.drop_last().subrange(0, k) =~= s.subrange(0, k));
    } else {
        assert(s.subrange(0, k) =~= s);
    }
}

/// The size of a directory: the external tool's answer where it gave one,
/// else the manual walk's sum; `None` only where both failed.
pub fn calculate_directory_size(external: Option<u64>, manual: Option<u64>) -> (r: Option<u64>)
    ensures
        r == (match external {
            Some(v) => Some(v),
            None => manual,
        }),
{
    match external {
        Some(v) => Some(v),
        None => manual,
    }
}

} // verus!
