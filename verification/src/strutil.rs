//! Byte-level text utilities: splitting, trimming and decimal parsing.
//! Numeric fields are parsed into milli-units (thousandths), the fixed
//! point scale of the adjustment parameters.
use vstd::prelude::*;

verus! {

pub open spec fn is_digit_byte(b: u8) -> bool {
    48 <= b <= 57
}

pub open spec fn is_space_byte(b: u8) -> bool {
    b == 32 || (9 <= b <= 13)
}

/// ASCII lower-casing of one byte.
pub open spec fn lower_byte(b: u8) -> u8 {
    if 65 <= b <= 90 {
        (b + 32) as u8
    } else {
        b
    }
}

pub fn lower_byte_exec(b: u8) -> (r: u8)
    ensures
        r == lower_byte(b),
{
    if 65 <= b && b <= 90 {
        b + 32
    } else {
        b
    }
}

/// Case-folded bytes: each ASCII letter lowered.
pub open spec fn folded(s: Seq<u8>) -> Seq<u8> {
    s.map_values(|b: u8| lower_byte(b))
}

pub fn fold_bytes(s: &Vec<u8>) -> (r: Vec<u8>)
    ensures
        r@ == folded(s@),
{
    let mut r: Vec<u8> = Vec::new();
    let mut i: usize = 0;
    while i < s.len()
        invariant
            i <= s@.len(),
            r@ == folded(s@).subrange(0, i as int),
        decreases s@.len() - i,
    {
        r.push(lower_byte_exec(s[i]));
        proof {
            assert(folded(s@).subrange(0, i + 1) =~= folded(s@).subrange(0, i as int) + seq![
                lower_byte(s@[i as int]),
            ]);
        }
        i = i + 1;
    }
    proof {
        assert(folded(s@).subrange(0, s@.len() as int) =~= folded(s@));
    }
    r
}

/// Copy of one byte range.
pub fn sub_vec(s: &Vec<u8>, from: usize, to: usize) -> (r: Vec<u8>)
    requires
        from <= to <= s@.len(),
    ensures
        r@ == s@.subrange(from as int, to as int),
{
    let mut r: Vec<u8> = Vec::new();
    let mut i: usize = from;
    while i < to
        invariant
            from <= i <= to <= s@.len(),
            r@ == s@.subrange(from as int, i as int),
        decreases to - i,
    {
        r.push(s[i]);
        proof {
            assert(s@.subrange(from as int, i + 1) =~= s@.subrange(from as int, i as int).push(
                s@[i as int],
            ));
        }
        i = i + 1;
    }
    r
}

/// Value of a digit string, most significant digit first.
pub open spec fn digits_val(s: Seq<u8>) -> int
    decreases s.len(),
{
    if s.len() == 0 {
        0
    } else {
        digits_val(s.drop_last()) * 10 + (s.last() - 48)
    }
}

pub open spec fn all_digit_bytes(s: Seq<u8>) -> bool {
    forall|j: int| 0 <= j < s.len() ==> is_digit_byte(#[trigger] s[j])
}

pub proof fn lemma_digits_val_nonneg(s: Seq<u8>)
    requires
        all_digit_bytes(s),
    ensures
        digits_val(s) >= 0,
    decreases s.len(),
{
    if s.len() > 0 {
        assert(all_digit_bytes(s.drop_last())) by {
            assert(forall|j: int|
                0 <= j < s.len() - 1 ==> s.drop_last()[j] == #[trigger] s[j]);
        }
        lemma_digits_val_nonneg(s.drop_last());
        assert(digits_val(s.drop_last()) * 10 >= 0) by (nonlinear_arith)
            requires
                digits_val(s.drop_last()) >= 0,
        ;
    }
}

/// Joining parts with a separator byte; the inverse of splitting.
pub open spec fn join_bytes(parts: Seq<Seq<u8>>, sep: u8) -> Seq<u8>
    decreases parts.len(),
{
    if parts.len() == 0 {
        Seq::empty()
    } else if parts.len() == 1 {
        parts[0]
    } else {
        parts[0] + seq![sep] + join_bytes(parts.drop_first(), sep)
    }
}

pub open spec fn no_sep_in_parts(parts: Seq<Seq<u8>>, sep: u8) -> bool {
    forall|i: int, j: int|
        0 <= i < parts.len() && 0 <= j < parts[i].len() ==> #[trigger] parts[i][j] != sep
}

/// Split a byte string on a separator byte.  The result is the unique
/// separator-free decomposition whose rejoining gives the input back.
pub fn split_on_byte(s: &Vec<u8>, sep: u8) -> (parts: Vec<Vec<u8>>)
    ensures
        parts@.len() >= 1,
        join_bytes(parts@.map_values(|p: Vec<u8>| p@), sep) == s@,
        no_sep_in_parts(parts@.map_values(|p: Vec<u8>| p@), sep),
{
    let mut parts: Vec<Vec<u8>> = Vec::new();
    let mut cur: Vec<u8> = Vec::new();
    let mut i: usize = 0;
    while i < s.len()
        invariant
            i <= s@.len(),
            join_bytes(parts@.map_values(|p: Vec<u8>| p@).push(cur@), sep) == s@.subrange(
                0,
                i as int,
            ),
            no_sep_in_parts(parts@.map_values(|p: Vec<u8>| p@).push(cur@), sep),
        decreases s@.len() - i,
    {
        let ghost old_parts = parts@.map_values(|p: Vec<u8>| p@);
        let ghost old_cur = cur@;
        let b = s[i];
        if b == sep {
            parts.push(cur);
            cur = Vec::new();
            proof {
                let new_parts = parts@.map_values(|p: Vec<u8>| p@);
                assert(new_parts =~= old_parts.push(old_cur));
                lemma_join_push(old_parts.push(old_cur), cur@, sep);
                assert(old_parts.push(old_cur).push(cur@).drop_last() =~= old_parts.push(old_cur));
                assert(s@.subrange(0, i + 1) =~= s@.subrange(0, i as int) + seq![b]);
                assert(join_bytes(new_parts.push(cur@), sep) =~= s@.subrange(0, i + 1));
                assert forall|x: int, y: int|
                    0 <= x < new_parts.push(cur@).len() && 0 <= y < new_parts.push(cur@)[x].len()
                        implies #[trigger] new_parts.push(cur@)[x][y] != sep by {
                    if x < new_parts.len() {
                        assert(new_parts.push(cur@)[x] == old_parts.push(old_cur)[x]);
                        assert(old_parts.push(old_cur)[x][y] != sep);
                    }
                }
            }
        } else {
            cur.push(b);
            proof {
                let ps = parts@.map_values(|p: Vec<u8>| p@);
                lemma_join_last_extend(ps, old_cur, b, sep);
                assert(s@.subrange(0, i + 1) =~= s@.subrange(0, i as int) + seq![b]);
                assert(join_bytes(ps.push(cur@), sep) =~= s@.subrange(0, i + 1));
                assert forall|x: int, y: int|
                    0 <= x < ps.push(cur@).len() && 0 <= y < ps.push(cur@)[x].len()
                        implies #[trigger] ps.push(cur@)[x][y] != sep by {
                    if x < ps.len() {
                        assert(ps.push(old_cur)[x][y] != sep);
                        assert(ps.push(cur@)[x] == ps.push(old_cur)[x]);
                    } else {
                        assert(ps.push(cur@)[x] == cur@);
                        if y < old_cur.len() {
                            assert(cur@[y] == old_cur[y]);
                            assert(ps.push(old_cur)[x][y] != sep);
                        } else {
                            assert(cur@[y] == b);
                        }
                    }
                }
            }
        }
        i = i + 1;
    }
    proof {
        assert(s@.subrange(0, s@.len() as int) =~= s@);
    }
    let ghost final_parts = parts@.map_values(|p: Vec<u8>| p@);
    let ghost final_cur = cur@;
    parts.push(cur);
    proof {
        assert(parts@.map_values(|p: Vec<u8>| p@) =~= final_parts.push(final_cur));
    }
    parts
}

/// Appending an empty final part appends one separator to the join.
proof fn lemma_join_push(parts: Seq<Seq<u8>>, last: Seq<u8>, sep: u8)
    requires
        parts.len() >= 1,
        last.len() == 0,
    ensures
        join_bytes(parts.push(last), sep) =~= join_bytes(parts, sep) + seq![sep],
    decreases parts.len(),
{
    if parts.len() == 1 {
        assert(parts.push(last).drop_first() =~= seq![last]);
        assert(join_bytes(seq![last], sep) =~= last);
    } else {
        lemma_join_push(parts.drop_first(), last, sep);
        assert(parts.push(last).drop_first() =~= parts.drop_first().push(last));
    }
}

/// Extending the final part extends the join by the same byte.
proof fn lemma_join_last_extend(parts: Seq<Seq<u8>>, last: Seq<u8>, b: u8, sep: u8)
    ensures
        join_bytes(parts.push(last.push(b)), sep) =~= join_bytes(parts.push(last), sep) + seq![b],
    decreases parts.len(),
{
    if parts.len() == 0 {
        assert(join_bytes(seq![last.push(b)], sep) =~= last.push(b));
        assert(join_bytes(seq![last], sep) =~= last);
        assert(last.push(b) =~= last + seq![b]);
    } else {
        lemma_join_last_extend(parts.drop_first(), last, b, sep);
        assert(parts.push(last.push(b)).drop_first() =~= parts.drop_first().push(last.push(b)));
        assert(parts.push(last).drop_first() =~= parts.drop_first().push(last));
    }
}

/// Leading whitespace count.
pub open spec fn lead_spaces(s: Seq<u8>) -> int
    decreases s.len(),
{
    if s.len() == 0 || !is_space_byte(s[0]) {
        0
    } else {
        1 + lead_spaces(s.drop_first())
    }
}

/// Trailing whitespace count.
pub open spec fn trail_spaces(s: Seq<u8>) -> int
    decreases s.len(),
{
    if s.len() == 0 || !is_space_byte(s.last()) {
        0
    } else {
        1 + trail_spaces(s.drop_last())
    }
}

/// A byte string with surrounding whitespace removed.
pub open spec fn spec_trim(s: Seq<u8>) -> Seq<u8> {
    if lead_spaces(s) == s.len() {
        Seq::empty()
    } else {
        s.subrange(lead_spaces(s), s.len() - trail_spaces(s))
    }
}

proof fn lemma_lead_spaces_at(s: Seq<u8>, i: int)
    requires
        0 <= i <= s.len(),
        forall|j: int| 0 <= j < i ==> is_space_byte(#[trigger] s[j]),
        i == s.len() || !is_space_byte(s[i]),
    ensures
        lead_spaces(s) == i,
    decreases s.len(),
{
    if s.len() > 0 && is_space_byte(s[0]) {
        lemma_lead_spaces_at(s.drop_first(), i - 1);
    }
}

proof fn lemma_trail_spaces_at(s: Seq<u8>, i: int)
    requires
        0 <= i <= s.len(),
        forall|j: int| i <= j < s.len() ==> is_space_byte(#[trigger] s[j]),
        i == 0 || !is_space_byte(s[i - 1]),
    ensures
        trail_spaces(s) == s.len() - i,
    decreases s.len(),
{
    if s.len() > 0 && is_space_byte(s.last()) {
        assert(i < s.len());
        lemma_trail_spaces_at(s.drop_last(), i);
    }
}

/// Remove surrounding ASCII whitespace.
pub fn trim_bytes(s: &Vec<u8>) -> (r: Vec<u8>)
    ensures
        r@ == spec_trim(s@),
{
    let mut a: usize = 0;
    while a < s.len() && (s[a] == 32 || (9 <= s[a] && s[a] <= 13))
        invariant
            a <= s@.len(),
            forall|j: int| 0 <= j < a ==> is_space_byte(#[trigger] s@[j]),
        decreases s@.len() - a,
    {
        a = a + 1;
    }
    proof {
        lemma_lead_spaces_at(s@, a as int);
    }
    if a == s.len() {
        let r: Vec<u8> = Vec::new();
        proof {
            assert(r@ =~= spec_trim(s@));
        }
        return r;
    }
    let mut b: usize = s.len();
    while b > a && (s[b - 1] == 32 || (9 <= s[b - 1] && s[b - 1] <= 13))
        invariant
            a <= b <= s@.len(),
            a < s@.len(),
            !is_space_byte(s@[a as int]),
            forall|j: int| b <= j < s@.len() ==> is_space_byte(#[trigger] s@[j]),
        decreases b,
    {
        b = b - 1;
    }
    proof {
        assert(b > a);
        assert(!is_space_byte(s@[b - 1]));
        lemma_trail_spaces_at(s@, b as int);
    }
    let mut r: Vec<u8> = Vec::new();
    let mut i: usize = a;
    while i < b
        invariant
            a <= i <= b <= s@.len(),
            r@ == s@.subrange(a as int, i as int),
        decreases b - i,
    {
        r.push(s[i]);
        proof {
            assert(s@.subrange(a as int, i + 1) =~= s@.subrange(a as int, i as int) + seq![
                s@[i as int],
            ]);
        }
        i = i + 1;
    }
    proof {
        assert(r@ =~= spec_trim(s@));
    }
    r
}

/// A plain unsigned decimal number: digits only, valid when nonempty
/// and its value fits the given bound.
pub open spec fn spec_parse_uint(s: Seq<u8>, max: int) -> Option<int> {
    if s.len() >= 1 && all_digit_bytes(s) && digits_val(s) <= max {
        Some(digits_val(s))
    } else {
        None
    }
}

/// Parse an unsigned decimal, rejecting values above `max`.
pub fn parse_uint(s: &Vec<u8>, max: u64) -> (r: Option<u64>)
    ensures
        match r {
            Some(v) => spec_parse_uint(s@, max as int) == Some(v as int),
            None => spec_parse_uint(s@, max as int) is None,
        },
{
    if s.len() == 0 {
        return None;
    }
    let mut acc: u64 = 0;
    let mut i: usize = 0;
    while i < s.len()
        invariant
            i <= s@.len(),
            s@.len() >= 1,
            max <= u64::MAX,
            forall|j: int| 0 <= j < i ==> is_digit_byte(#[trigger] s@[j]),
            acc == digits_val(s@.subrange(0, i as int)),
            acc <= max,
        decreases s@.len() - i,
    {
        let b = s[i];
        if b < 48 || b > 57 {
            return None;
        }
        let d = (b - 48) as u64;
        proof {
            assert(s@.subrange(0, i + 1).drop_last() =~= s@.subrange(0, i as int));
            assert(s@.subrange(0, i + 1).last() == s@[i as int]);
        }
        if acc > max / 10 || (acc == max / 10 && d > max % 10) {
            proof {
                let w = s@.subrange(0, i + 1);
                assert(digits_val(w) == acc * 10 + d);
                assert(acc * 10 + d > max) by (nonlinear_arith)
                    requires
                        acc > max / 10 && d >= 0 || (acc == max / 10 && d > max % 10),
                        acc >= 0,
                        d >= 0,
                        max >= 0,
                        max == 10 * (max / 10) + max % 10,
                        0 <= max % 10 < 10,
                ;
                if all_digit_bytes(s@) {
                    lemma_digits_prefix_monotone(s@, i + 1);
                }
            }
            return None;
        }
        proof {
            assert(acc * 10 + d <= max) by (nonlinear_arith)
                requires
                    acc <= max / 10,
                    !(acc == max / 10 && d > max % 10),
                    acc >= 0,
                    0 <= d <= 9,
                    max == 10 * (max / 10) + max % 10,
                    0 <= max % 10 < 10,
            ;
        }
        acc = acc * 10 + d;
        i = i + 1;
    }
    proof {
        assert(s@.subrange(0, s@.len() as int) =~= s@);
    }
    Some(acc)
}

/// Index of the first occurrence of a byte, or -1.
pub open spec fn find_byte(s: Seq<u8>, b: u8) -> int
    decreases s.len(),
{
    if s.len() == 0 {
        -1
    } else if s[0] == b {
        0
    } else if find_byte(s.drop_first(), b) == -1 {
        -1
    } else {
        1 + find_byte(s.drop_first(), b)
    }
}

pub open spec fn pow10(k: nat) -> int
    decreases k,
{
    if k == 0 {
        1
    } else {
        10 * pow10((k - 1) as nat)
    }
}

proof fn lemma_pow10_pos(k: nat)
    ensures
        pow10(k) >= 1,
    decreases k,
{
    if k > 0 {
        lemma_pow10_pos((k - 1) as nat);
    }
}

/// All-digit strings are bounded by a power of ten in their length.
proof fn lemma_digits_val_upper(s: Seq<u8>)
    requires
        all_digit_bytes(s),
    ensures
        0 <= digits_val(s) < pow10(s.len()),
    decreases s.len(),
{
    if s.len() == 0 {
    } else {
        assert(all_digit_bytes(s.drop_last())) by {
            assert(forall|j: int| 0 <= j < s.len() - 1 ==> s.drop_last()[j] == #[trigger] s[j]);
        }
        lemma_digits_val_upper(s.drop_last());
        let dv = digits_val(s.drop_last());
        let p = pow10((s.len() - 1) as nat);
        assert(dv * 10 + (s.last() - 48) < 10 * p) by (nonlinear_arith)
            requires
                0 <= dv < p,
                0 <= s.last() - 48 <= 9,
        ;
        assert(dv * 10 >= 0) by (nonlinear_arith)
            requires
                dv >= 0,
        ;
    }
}

pub proof fn lemma_find_byte_at(s: Seq<u8>, b: u8, i: int)
    requires
        0 <= i <= s.len(),
        forall|j: int| 0 <= j < i ==> #[trigger] s[j] != b,
        i == s.len() || s[i] == b,
    ensures
        i < s.len() ==> find_byte(s, b) == i,
        i == s.len() ==> find_byte(s, b) == -1,
    decreases s.len(),
{
    if s.len() > 0 && s[0] != b {
        lemma_find_byte_at(s.drop_first(), b, i - 1);
    }
}

/// Milli-value of up to the first three fraction digits.
pub open spec fn frac_milli(s: Seq<u8>) -> int {
    if s.len() >= 3 {
        digits_val(s.subrange(0, 3))
    } else if s.len() == 2 {
        digits_val(s) * 10
    } else if s.len() == 1 {
        digits_val(s) * 100
    } else {
        0
    }
}

/// Longest accepted digit run of an integer part, a machine bound that
/// keeps milli-values inside 64 bits.
pub const MAX_INT_DIGITS: usize = 15;

/// An unsigned decimal with an optional fraction, in milli-units; the
/// fraction is truncated after three digits.
pub open spec fn spec_parse_body_milli(s: Seq<u8>) -> Option<int> {
    let p = find_byte(s, 46);
    if p == -1 {
        if s.len() >= 1 && s.len() <= MAX_INT_DIGITS && all_digit_bytes(s) {
            Some(digits_val(s) * 1000)
        } else {
            None
        }
    } else {
        let ip = s.subrange(0, p);
        let fp = s.subrange(p + 1, s.len() as int);
        if ip.len() + fp.len() >= 1 && ip.len() <= MAX_INT_DIGITS && all_digit_bytes(ip)
            && all_digit_bytes(fp) {
            Some(digits_val(ip) * 1000 + frac_milli(fp))
        } else {
            None
        }
    }
}

/// A signed decimal in milli-units: optional sign, digits, optional
/// dotted fraction truncated to thousandths.
pub open spec fn spec_parse_dec_milli(s: Seq<u8>) -> Option<int> {
    if s.len() == 0 {
        None
    } else if s[0] == 45 {
        match spec_parse_body_milli(s.drop_first()) {
            Some(v) => Some(-v),
            None => None,
        }
    } else if s[0] == 43 {
        spec_parse_body_milli(s.drop_first())
    } else {
        spec_parse_body_milli(s)
    }
}

/// Digits of `s[from..to]` as a number; `None` on a non-digit byte.
fn digits_of_range(s: &Vec<u8>, from: usize, to: usize) -> (r: Option<u64>)
    requires
        from <= to <= s@.len(),
        to - from <= MAX_INT_DIGITS,
    ensures
        match r {
            Some(v) => all_digit_bytes(s@.subrange(from as int, to as int)) && v == digits_val(
                s@.subrange(from as int, to as int),
            ),
            None => !all_digit_bytes(s@.subrange(from as int, to as int)),
        },
{
    let ghost whole = s@.subrange(from as int, to as int);
    let mut acc: u64 = 0;
    let mut i: usize = from;
    while i < to
        invariant
            from <= i <= to <= s@.len(),
            to - from <= MAX_INT_DIGITS,
            whole == s@.subrange(from as int, to as int),
            all_digit_bytes(s@.subrange(from as int, i as int)),
            acc == digits_val(s@.subrange(from as int, i as int)),
            acc < 1_000_000_000_000_000,
        decreases to - i,
    {
        let b = s[i];
        if b < 48 || b > 57 {
            proof {
                assert(whole[i - from] == s@[i as int]);
            }
            return None;
        }
        proof {
            let pre = s@.subrange(from as int, i as int);
            let ext = s@.subrange(from as int, i + 1);
            assert(ext.drop_last() =~= pre);
            assert(ext.last() == s@[i as int]);
            lemma_digits_val_upper(ext);
            lemma_pow10_le_limit((ext.len()) as nat);
        }
        acc = acc * 10 + ((b - 48) as u64);
        i = i + 1;
    }
    proof {
        assert(s@.subrange(from as int, to as int) =~= whole);
    }
    Some(acc)
}

/// pow10 of at most MAX_INT_DIGITS stays within the accumulator bound.
proof fn lemma_pow10_le_limit(k: nat)
    requires
        k <= 15,
    ensures
        pow10(k) <= 1_000_000_000_000_000,
{
    lemma_pow10_mono(k, 15);
    assert(pow10(15) == 1_000_000_000_000_000) by {
        reveal_with_fuel(pow10, 16);
    }
}

proof fn lemma_pow10_mono(a: nat, b: nat)
    requires
        a <= b,
    ensures
        pow10(a) <= pow10(b),
    decreases b,
{
    if a < b {
        lemma_pow10_mono(a, (b - 1) as nat);
        lemma_pow10_pos((b - 1) as nat);
    }
}

/// Parse a signed decimal into milli-units.
pub fn parse_dec_milli(s: &Vec<u8>) -> (r: Option<i64>)
    ensures
        match r {
            Some(v) => spec_parse_dec_milli(s@) == Some(v as int),
            None => spec_parse_dec_milli(s@) is None,
        },
{
    if s.len() == 0 {
        return None;
    }
    let (neg, start): (bool, usize) = if s[0] == 45 {
        (true, 1)
    } else if s[0] == 43 {
        (false, 1)
    } else {
        (false, 0)
    };
    let ghost body = s@.subrange(start as int, s@.len() as int);
    proof {
        if start == 1 {
            assert(body =~= s@.drop_first());
        } else {
            assert(body =~= s@);
        }
    }
    let r = parse_body_milli(s, start);
    match r {
        Some(v) => if neg {
            Some(-v)
        } else {
            Some(v)
        },
        None => None,
    }
}

/// Parse the unsigned body `s[start..]` into milli-units.
fn parse_body_milli(s: &Vec<u8>, start: usize) -> (r: Option<i64>)
    requires
        start <= s@.len(),
    ensures
        match r {
            Some(v) => spec_parse_body_milli(s@.subrange(start as int, s@.len() as int)) == Some(
                v as int,
            ) && 0 <= v,
            None => spec_parse_body_milli(s@.subrange(start as int, s@.len() as int)) is None,
        },
{
    let ghost body = s@.subrange(start as int, s@.len() as int);
    let n = s.len();
    let mut p: usize = start;
    while p < n && s[p] != 46
        invariant
            start <= p <= n == s@.len(),
            forall|j: int| start <= j < p ==> #[trigger] s@[j] != 46,
        decreases n - p,
    {
        p = p + 1;
    }
    proof {
        assert(forall|j: int| 0 <= j < p - start ==> #[trigger] body[j] != 46);
        if p < n {
            assert(body[p - start] == 46);
        }
        lemma_find_byte_at(body, 46, p - start);
    }
    if p == n {
        // no fraction dot
        if p == start || p - start > MAX_INT_DIGITS {
            return None;
        }
        proof {
            assert(body =~= s@.subrange(start as int, p as int));
        }
        match digits_of_range(s, start, p) {
            Some(v) => {
                proof {
                    lemma_digits_val_upper(body);
                    lemma_pow10_le_limit(body.len() as nat);
                }
                Some((v as i64) * 1000)
            },
            None => None,
        }
    } else {
        let ghost ip = body.subrange(0, (p - start) as int);
        let ghost fp = body.subrange((p - start) as int + 1, body.len() as int);
        proof {
            assert(ip =~= s@.subrange(start as int, p as int));
            assert(fp =~= s@.subrange(p as int + 1, s@.len() as int));
        }
        if p == start && p + 1 == n {
            // a lone dot has no digits at all
            return None;
        }
        if p - start > MAX_INT_DIGITS {
            return None;
        }
        let int_part = match digits_of_range(s, start, p) {
            Some(v) => v,
            None => {
                return None;
            },
        };
        // the whole fraction must be digits, though only three count
        let mut j: usize = p + 1;
        while j < n && 48 <= s[j] && s[j] <= 57
            invariant
                p + 1 <= j <= n == s@.len(),
                forall|q: int| p + 1 <= q < j ==> is_digit_byte(#[trigger] s@[q]),
            decreases n - j,
        {
            j = j + 1;
        }
        if j < n {
            proof {
                assert(fp[j - p - 1] == s@[j as int]);
                assert(!is_digit_byte(fp[j - p - 1]));
            }
            return None;
        }
        proof {
            assert(forall|q: int| 0 <= q < fp.len() ==> is_digit_byte(#[trigger] fp[q]));
        }
        let fr: u64 = if p + 1 == n {
            0
        } else if n - (p + 1) >= 3 {
            proof {
                assert(fp.subrange(0, 3) =~= s@.subrange(p as int + 1, p as int + 4));
            }
            match digits_of_range(s, p + 1, p + 4) {
                Some(v) => {
                    proof {
                        lemma_digits_val_upper(fp.subrange(0, 3));
                        assert(pow10(3) == 1000) by {
                            reveal_with_fuel(pow10, 4);
                        }
                    }
                    v
                },
                None => {
                    return None;
                },
            }
        } else {
            match digits_of_range(s, p + 1, n) {
                Some(v) => {
                    proof {
                        lemma_digits_val_upper(fp);
                        lemma_pow10_le_limit(fp.len() as nat);
                        assert(pow10(1) == 10 && pow10(2) == 100) by {
                            reveal_with_fuel(pow10, 3);
                        }
                    }
                    if n - (p + 1) == 2 {
                        v * 10
                    } else {
                        v * 100
                    }
                },
                None => {
                    return None;
                },
            }
        };
        proof {
            assert(fr == frac_milli(fp));
            lemma_digits_val_upper(ip);
            lemma_pow10_le_limit(ip.len() as nat);
        }
        Some((int_part as i64) * 1000 + (fr as i64))
    }
}

/// A digit string's value only grows as more digits follow.
proof fn lemma_digits_prefix_monotone(s: Seq<u8>, i: int)
    requires
        0 <= i <= s.len(),
        all_digit_bytes(s),
    ensures
        digits_val(s) >= digits_val(s.subrange(0, i)),
    decreases s.len() - i,
{
    if i < s.len() {
        lemma_digits_prefix_monotone(s, i + 1);
        let p = s.subrange(0, i);
        let q = s.subrange(0, i + 1);
        assert(q.drop_last() =~= p);
        assert(forall|j: int| 0 <= j < q.len() ==> is_digit_byte(#[trigger] q[j]));
        lemma_digits_val_nonneg(p);
        assert(digits_val(q) == digits_val(p) * 10 + (q.last() - 48));
        assert(digits_val(p) * 10 >= digits_val(p)) by (nonlinear_arith)
            requires
                digits_val(p) >= 0,
        ;
    } else {
        assert(s.subrange(0, s.len() as int) =~= s);
    }
}

} // verus!
