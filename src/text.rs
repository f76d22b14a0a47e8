//! Character-level helpers shared by the path logic: ASCII case folding,
//! case-insensitive prefix and substring tests, and decimal / hex rendering.
use vstd::prelude::*;
use vstd::std_specs::iter::IteratorSpec;

verus! {

/// The characters of `s`, in order.
pub fn chars_of(s: &str) -> (r: Vec<char>)
    ensures
        r@ == s@,
{
    broadcast use vstd::string::axiom_spec_iter, vstd::string::next_postcondition;

    let mut it = s.chars();
    let mut r: Vec<char> = Vec::new();
    loop
        invariant
            it.obeys_prophetic_iter_laws(),
            it.decrease() is Some,
            r@ + it.remaining() == s@,
        decreases it.decrease()->0,
    {
        match it.next() {
            Some(c) => {
                r.push(c);
                assert(r@ + it.remaining() =~= s@);
            },
            None => {
                assert(r@ =~= s@);
                return r;
            },
        }
    }
}

/// Relies on `String::from_iter` over characters: the string made of `v`, in order.
#[verifier::external_body]
pub(crate) fn string_of(v: &[char]) -> (r: String)
    ensures
        r@ == v@,
{
    String::from_iter(v)
}

/// An ASCII capital letter.
pub open spec fn is_upper(c: char) -> bool {
    'A' <= c && c <= 'Z'
}

/// ASCII lowercase of one character; every other character is kept.
pub open spec fn lower_char(c: char) -> char {
    if is_upper(c) {
        ((c as u32) + 32) as char
    } else {
        c
    }
}

/// ASCII lowercase of every character.
pub open spec fn lower(s: Seq<char>) -> Seq<char> {
    s.map_values(|c: char| lower_char(c))
}

/// `s` equals `t` up to ASCII case.
pub open spec fn eq_ci(s: Seq<char>, t: Seq<char>) -> bool {
    lower(s) == lower(t)
}

/// `s` starts with `p` up to ASCII case.
pub open spec fn starts_ci(s: Seq<char>, p: Seq<char>) -> bool {
    p.len() <= s.len() && eq_ci(s.subrange(0, p.len() as int), p)
}

/// ASCII lowercase of one character.
pub fn lower_char_exec(c: char) -> (r: char)
    ensures
        r == lower_char(c),
{
    if c >= 'A' && c <= 'Z' {
        ((c as u8) + 32) as char
    } else {
        c
    }
}


/// Lowercases every ASCII letter of `s`.
pub fn lower_chars(s: &[char]) -> (r: Vec<char>)
    ensures
        r@ == lower(s@),
{
    let mut r: Vec<char> = Vec::new();
    let mut i: usize = 0;
    while i < s.len()
        invariant
            i <= s@.len(),
            r@ == lower(s@.subrange(0, i as int)),
        decreases s@.len() - i,
    {
        r.push(lower_char_exec(s[i]));
        i = i + 1;
        assert(lower(s@.subrange(0, i as int)) =~= lower(s@.subrange(0, i - 1)).push(lower_char(s@[i - 1])));
    }
    assert(s@.subrange(0, s@.len() as int) =~= s@);
    r
}

/// Whether `s[start..start + p.len()]` exists and equals `p` up to ASCII case.
pub fn matches_ci_at(s: &[char], start: usize, p: &[char]) -> (r: bool)
    ensures
        r == (start + p@.len() <= s@.len() && eq_ci(
            s@.subrange(start as int, start + p@.len()),
            p@,
        )),
{
    if p.len() > s.len() || start > s.len() - p.len() {
        return false;
    }
    let n = s.len();
    let mut i: usize = 0;
    while i < p.len()
        invariant
            n == s@.len(),
            start + p@.len() <= s@.len(),
            i <= p@.len(),
            forall|j: int| 0 <= j < i ==> lower_char(#[trigger] s@[start + j]) == lower_char(p@[j]),
        decreases p@.len() - i,
    {
        if lower_char_exec(s[start + i]) != lower_char_exec(p[i]) {
            assert(lower(s@.subrange(start as int, start + p@.len()))[i as int] != lower(p@)[i as int]);
            return false;
        }
        i = i + 1;
    }
    assert forall|j: int| 0 <= j < p@.len() implies lower(
        s@.subrange(start as int, start + p@.len()),
    )[j] == lower(p@)[j] by {
        assert(lower_char(s@[start + j]) == lower_char(p@[j]));
    }
    assert(lower(s@.subrange(start as int, start + p@.len())) =~= lower(p@));
    true
}

/// Whether `s` starts with `p` up to ASCII case.
pub fn starts_with_ci(s: &[char], p: &[char]) -> (r: bool)
    ensures
        r == starts_ci(s@, p@),
{
    matches_ci_at(s, 0, p)
}

/// `s` holds `p` somewhere, up to ASCII case.
pub open spec fn contains_ci(s: Seq<char>, p: Seq<char>) -> bool {
    exists|i: int|
        0 <= i && i + p.len() <= s.len() && #[trigger] eq_ci(s.subrange(i, i + p.len()), p)
}

/// Whether `s` holds `p` somewhere, up to ASCII case.
pub fn contains_ci_exec(s: &[char], p: &[char]) -> (r: bool)
    ensures
        r == contains_ci(s@, p@),
{
    if p.len() > s.len() {
        return false;
    }
    let last = s.len() - p.len();
    let mut i: usize = 0;
    loop
        invariant
            last == s@.len() - p@.len(),
            i <= last,
            forall|j: int|
                0 <= j < i ==> !#[trigger] eq_ci(s@.subrange(j, j + p@.len()), p@),
        decreases last - i,
    {
        if matches_ci_at(s, i, p) {
            return true;
        }
        if i == last {
            return false;
        }
        i = i + 1;
    }
}

/// `s` with every `from` replaced by `to`.
pub open spec fn replace_char(s: Seq<char>, from: char, to: char) -> Seq<char> {
    s.map_values(|c: char| if c == from { to } else { c })
}

/// `s` with every `from` replaced by `to`.
pub fn replace_char_exec(s: &[char], from: char, to: char) -> (r: Vec<char>)
    ensures
        r@ == replace_char(s@, from, to),
{
    let mut r: Vec<char> = Vec::new();
    let mut i: usize = 0;
    while i < s.len()
        invariant
            i <= s@.len(),
            r@ == replace_char(s@.subrange(0, i as int), from, to),
        decreases s@.len() - i,
    {
        if s[i] == from {
            r.push(to);
        } else {
            r.push(s[i]);
        }
        i = i + 1;
        assert(replace_char(s@.subrange(0, i as int), from, to) =~= replace_char(
            s@.subrange(0, i - 1),
            from,
            to,
        ).push(if s@[i - 1] == from { to } else { s@[i - 1] }));
    }
    assert(s@.subrange(0, s@.len() as int) =~= s@);
    r
}

/// Appends `b` to `a`.
pub fn append_chars(a: &mut Vec<char>, b: &[char])
    ensures
        final(a)@ == old(a)@ + b@,
{
    let mut i: usize = 0;
    while i < b.len()
        invariant
            i <= b@.len(),
            a@ == old(a)@ + b@.subrange(0, i as int),
        decreases b@.len() - i,
    {
        a.push(b[i]);
        i = i + 1;
        assert(old(a)@ + b@.subrange(0, i as int) =~= old(a)@ + b@.subrange(0, i - 1) + seq![b@[i - 1]]);
    }
    assert(b@.subrange(0, b@.len() as int) =~= b@);
}

/// The character of a digit below sixteen, lowercase.
pub open spec fn hex_digit(d: u64) -> char {
    if d < 10 {
        (('0' as u32) + d) as char
    } else {
        (('a' as u32) + d - 10) as char
    }
}

/// Sixteen lowercase hex digits of `h`, most significant first, zero-padded.
pub open spec fn hex16(h: u64) -> Seq<char> {
    Seq::new(16, |i: int| hex_digit((h >> (60 - 4 * i) as u64) & 15))
}

fn hex_digit_exec(d: u64) -> (r: char)
    requires
        d < 16,
    ensures
        r == hex_digit(d),
{
    if d < 10 {
        ((d as u8) + 48) as char
    } else {
        ((d as u8) + 87) as char
    }
}

/// The sixteen-digit lowercase hex form of `h`.
pub fn hex16_exec(h: u64) -> (r: Vec<char>)
    ensures
        r@ == hex16(h),
{
    let mut r: Vec<char> = Vec::new();
    let mut i: u64 = 0;
    while i < 16
        invariant
            i <= 16,
            r@ == Seq::new(i as nat, |k: int| hex_digit((h >> (60 - 4 * k) as u64) & 15)),
        decreases 16 - i,
    {
        let sh: u64 = 60 - 4 * i;
        let d = (h >> sh) & 15;
        assert(((h >> sh) & 15) < 16) by (bit_vector);
        r.push(hex_digit_exec(d));
        i = i + 1;
        assert(r@ =~= Seq::new(i as nat, |k: int| hex_digit((h >> (60 - 4 * k) as u64) & 15)));
    }
    assert(r@ =~= hex16(h));
    r
}

/// The value of a digit character in bases up to sixteen (either case);
/// sixteen for any character that is no such digit.
pub open spec fn digit_value(c: char) -> nat {
    if '0' <= c && c <= '9' {
        (c as u32 - '0' as u32) as nat
    } else if 'a' <= c && c <= 'f' {
        (c as u32 - 'a' as u32 + 10) as nat
    } else if 'A' <= c && c <= 'F' {
        (c as u32 - 'A' as u32 + 10) as nat
    } else {
        16
    }
}

/// Every character is a digit of base `radix`.
pub open spec fn all_digits(s: Seq<char>, radix: nat) -> bool {
    forall|i: int| 0 <= i < s.len() ==> #[trigger] digit_value(s[i]) < radix
}

/// The number that the digits of `s` spell in base `radix`.
pub open spec fn value_of(s: Seq<char>, radix: nat) -> nat
    decreases s.len(),
{
    if s.len() == 0 {
        0
    } else {
        value_of(s.drop_last(), radix) * radix + digit_value(s.last())
    }
}

/// The digits of an unsigned integer's text: all of it but a leading `+`.
pub open spec fn unsigned_body(s: Seq<char>) -> Seq<char> {
    if s.len() > 0 && s[0] == '+' {
        s.skip(1)
    } else {
        s
    }
}

/// How an unsigned integer of largest value `max` is read from text: an optional
/// `+`, then at least one digit of base `radix`, and a value that fits.
pub open spec fn parse_unsigned(s: Seq<char>, radix: nat, max: nat) -> Option<nat> {
    let body = unsigned_body(s);
    if body.len() > 0 && all_digits(body, radix) && value_of(body, radix) <= max {
        Some(value_of(body, radix))
    } else {
        None
    }
}

proof fn lemma_value_grows(s: Seq<char>, radix: nat, i: int)
    requires
        radix >= 1,
        0 <= i <= s.len(),
    ensures
        value_of(s, radix) >= value_of(s.subrange(0, i), radix),
    decreases s.len(),
{
    if i < s.len() {
        assert(s.drop_last().subrange(0, i) =~= s.subrange(0, i));
        lemma_value_grows(s.drop_last(), radix, i);
        assert(value_of(s.drop_last(), radix) * radix >= value_of(s.drop_last(), radix))
            by (nonlinear_arith)
            requires
                radix >= 1,
        ;
    } else {
        assert(s.subrange(0, i) =~= s);
    }
}

/// The value of a digit character, sixteen for a non-digit.
pub fn digit_value_exec(c: char) -> (r: u64)
    ensures
        r as nat == digit_value(c),
{
    if c >= '0' && c <= '9' {
        (c as u32 - '0' as u32) as u64
    } else if c >= 'a' && c <= 'f' {
        (c as u32 - 'a' as u32 + 10) as u64
    } else if c >= 'A' && c <= 'F' {
        (c as u32 - 'A' as u32 + 10) as u64
    } else {
        16
    }
}

/// Reads an unsigned integer no larger than `max` in base ten or sixteen.
pub fn parse_unsigned_exec(s: &[char], radix: u64, max: u64) -> (r: Option<u64>)
    requires
        radix == 10 || radix == 16,
    ensures
        r matches Some(v) ==> parse_unsigned(s@, radix as nat, max as nat) == Some(v as nat)
            && v <= max,
        r is None ==> parse_unsigned(s@, radix as nat, max as nat) is None,
{
    let start: usize = if s.len() > 0 && s[0] == '+' {
        1
    } else {
        0
    };
    let ghost body = unsigned_body(s@);
    assert(body =~= s@.subrange(start as int, s@.len() as int));
    if start >= s.len() {
        return None;
    }
    let mut acc: u64 = 0;
    let mut i: usize = start;
    while i < s.len()
        invariant
            start <= i <= s@.len(),
            body == unsigned_body(s@),
            body =~= s@.subrange(start as int, s@.len() as int),
            radix == 10 || radix == 16,
            acc <= max,
            acc as nat == value_of(body.subrange(0, i - start), radix as nat),
            all_digits(body.subrange(0, i - start), radix as nat),
        decreases s@.len() - i,
    {
        let d = digit_value_exec(s[i]);
        let ghost k = (i - start) as int;
        assert(body[k] == s@[i as int]);
        assert(body.subrange(0, k + 1).drop_last() =~= body.subrange(0, k));
        assert(body.subrange(0, k + 1).last() == s@[i as int]);
        if d >= radix {
            assert(!all_digits(body, radix as nat)) by {
                assert(digit_value(body[k]) >= radix);
            }
            return None;
        }
        assert((acc as int) * (radix as int) + (d as int) <= 0xffff_ffff_ffff_ffff * 16 + 15)
            by (nonlinear_arith)
            requires
                acc <= 0xffff_ffff_ffff_ffffu64,
                radix <= 16,
                d < 16,
        ;
        let nv: u128 = (acc as u128) * (radix as u128) + (d as u128);
        assert(value_of(body.subrange(0, k + 1), radix as nat) == nv);
        if nv > max as u128 {
            proof {
                lemma_value_grows(body, radix as nat, k + 1);
            }
            assert(value_of(body, radix as nat) > max);
            assert(parse_unsigned(s@, radix as nat, max as nat) is None);
            return None;
        }
        acc = nv as u64;
        i = i + 1;
        assert(all_digits(body.subrange(0, i - start), radix as nat)) by {
            assert forall|j: int| 0 <= j < i - start implies #[trigger] digit_value(
                body.subrange(0, i - start)[j],
            ) < radix by {
                if j < k {
                    assert(body.subrange(0, i - start)[j] == body.subrange(0, k)[j]);
                }
            }
        }
    }
    assert(body.subrange(0, body.len() as int) =~= body);
    Some(acc)
}

pub open spec fn dec_digit(d: nat) -> char {
    (('0' as u32) + d) as char
}

/// The decimal form of `n`, without leading zeros.
pub open spec fn decimal(n: nat) -> Seq<char>
    decreases n,
{
    if n < 10 {
        seq![dec_digit(n)]
    } else {
        decimal(n / 10).push(dec_digit(n % 10))
    }
}

/// The decimal form of `n`.
pub fn decimal_exec(n: u64) -> (r: Vec<char>)
    ensures
        r@ == decimal(n as nat),
    decreases n,
{
    let d = n % 10;
    let c = ((d as u8) + 48) as char;
    if n < 10 {
        let mut v: Vec<char> = Vec::new();
        v.push(c);
        assert(v@ =~= seq![dec_digit(n as nat)]);
        v
    } else {
        let mut v = decimal_exec(n / 10);
        v.push(c);
        v
    }
}

/// `s[a..b]` as a new vector.
pub fn slice_chars(s: &[char], a: usize, b: usize) -> (r: Vec<char>)
    requires
        a <= b <= s@.len(),
    ensures
        r@ == s@.subrange(a as int, b as int),
{
    let mut r: Vec<char> = Vec::new();
    let mut i: usize = a;
    while i < b
        invariant
            a <= i <= b <= s@.len(),
            r@ == s@.subrange(a as int, i as int),
        decreases b - i,
    {
        r.push(s[i]);
        i = i + 1;
        assert(r@ =~= s@.subrange(a as int, i as int));
    }
    r
}

/// Length of the leading run of characters before the first `c` (all of `s` when
/// there is none).
pub open spec fn run_before(s: Seq<char>, c: char) -> nat
    decreases s.len(),
{
    if s.len() == 0 || s[0] == c {
        0
    } else {
        1 + run_before(s.skip(1), c)
    }
}

proof fn lemma_run_before_step(s: Seq<char>, c: char, i: int)
    requires
        0 <= i < s.len(),
        s[i] != c,
    ensures
        run_before(s.skip(i), c) == 1 + run_before(s.skip(i + 1), c),
{
    assert(s.skip(i).skip(1) =~= s.skip(i + 1));
}

/// The index of the first `c` in `s`, or its length when there is none.
pub fn find_char(s: &[char], c: char) -> (r: usize)
    ensures
        r as nat == run_before(s@, c),
        r <= s@.len(),
{
    let mut i: usize = 0;
    assert(s@.skip(0) =~= s@);
    while i < s.len() && s[i] != c
        invariant
            i <= s@.len(),
            run_before(s@, c) == i + run_before(s@.skip(i as int), c),
        decreases s@.len() - i,
    {
        proof {
            lemma_run_before_step(s@, c, i as int);
        }
        i = i + 1;
    }
    assert(run_before(s@.skip(i as int), c) == 0);
    i
}

pub open spec fn is_dec_digit(c: char) -> bool {
    '0' <= c && c <= '9'
}

/// Length of the leading run of ASCII decimal digits of `s`.
pub open spec fn digit_run(s: Seq<char>) -> nat
    decreases s.len(),
{
    if s.len() == 0 || !is_dec_digit(s[0]) {
        0
    } else {
        1 + digit_run(s.skip(1))
    }
}

/// Length of the leading run of ASCII decimal digits of `s[start..]`.
pub fn digit_run_exec(s: &[char], start: usize) -> (r: usize)
    requires
        start <= s@.len(),
    ensures
        r as nat == digit_run(s@.skip(start as int)),
        start + r <= s@.len(),
{
    let mut i: usize = start;
    while i < s.len() && s[i] >= '0' && s[i] <= '9'
        invariant
            start <= i <= s@.len(),
            digit_run(s@.skip(start as int)) == (i - start) + digit_run(s@.skip(i as int)),
        decreases s@.len() - i,
    {
        assert(s@.skip(i as int).skip(1) =~= s@.skip(i + 1));
        i = i + 1;
    }
    i - start
}

/// Whether `s` and `t` are equal up to ASCII case.
pub fn eq_ci_exec(s: &[char], t: &[char]) -> (r: bool)
    ensures
        r == eq_ci(s@, t@),
{
    if s.len() != t.len() {
        assert(lower(s@).len() != lower(t@).len());
        return false;
    }
    assert(s@.subrange(0, t@.len() as int) =~= s@);
    matches_ci_at(s, 0, t)
}

/// Whether `s` starts with exactly the characters of `p`.
pub fn starts_with_exact(s: &[char], p: &[char]) -> (r: bool)
    ensures
        r == (p@.len() <= s@.len() && s@.take(p@.len() as int) == p@),
{
    if p.len() > s.len() {
        return false;
    }
    let mut i: usize = 0;
    while i < p.len()
        invariant
            p@.len() <= s@.len(),
            i <= p@.len(),
            forall|j: int| 0 <= j < i ==> s@[j] == p@[j],
        decreases p@.len() - i,
    {
        if s[i] != p[i] {
            assert(s@.take(p@.len() as int)[i as int] != p@[i as int]);
            return false;
        }
        i = i + 1;
    }
    assert(s@.take(p@.len() as int) =~= p@);
    true
}

/// The index of the first `c` in `s[start..]`, or the length of `s` when there is none.
pub fn find_char_from(s: &[char], start: usize, c: char) -> (r: usize)
    requires
        start <= s@.len(),
    ensures
        r == start + run_before(s@.skip(start as int), c),
        r <= s@.len(),
{
    let mut i: usize = start;
    while i < s.len() && s[i] != c
        invariant
            start <= i <= s@.len(),
            run_before(s@.skip(start as int), c) == (i - start) + run_before(s@.skip(i as int), c),
        decreases s@.len() - i,
    {
        assert(s@.skip(i as int).skip(1) =~= s@.skip(i + 1));
        i = i + 1;
    }
    i
}

/// The character sequences of a list of strings.
pub open spec fn string_views(v: Seq<String>) -> Seq<Seq<char>> {
    v.map_values(|x: String| x@)
}

/// Whether `v` holds a string equal to `s`.
pub fn contains_string(v: &Vec<String>, s: &String) -> (r: bool)
    ensures
        r == string_views(v@).contains(s@),
{
    let mut k: usize = 0;
    while k < v.len()
        invariant
            k <= v@.len(),
            forall|j: int| 0 <= j < k ==> v@[j]@ != s@,
        decreases v@.len() - k,
    {
        if v[k] == *s {
            assert(string_views(v@)[k as int] == s@);
            return true;
        }
        k = k + 1;
    }
    assert(!string_views(v@).contains(s@)) by {
        if string_views(v@).contains(s@) {
            let j = choose|j: int| 0 <= j < v@.len() && string_views(v@)[j] == s@;
            assert(v@[j]@ == s@);
        }
    }
    false
}

/// Index just past the last `c` in `s`; zero when `s` holds none.
pub open spec fn after_last(s: Seq<char>, c: char) -> nat
    decreases s.len(),
{
    if s.len() == 0 {
        0
    } else if s.last() == c {
        s.len()
    } else {
        after_last(s.drop_last(), c)
    }
}

/// What follows the last `c` holds no `c`.
pub proof fn lemma_after_last(s: Seq<char>, c: char)
    ensures
        after_last(s, c) <= s.len(),
        after_last(s, c) > 0 ==> s[after_last(s, c) - 1] == c,
        forall|i: int| after_last(s, c) <= i < s.len() ==> s[i] != c,
    decreases s.len(),
{
    if s.len() > 0 && s.last() != c {
        lemma_after_last(s.drop_last(), c);
        assert forall|i: int| after_last(s, c) <= i < s.len() implies s[i] != c by {
            if i < s.len() - 1 {
                assert(s.drop_last()[i] == s[i]);
            }
        }
    }
}

/// Index just past the last `c` in `s`; zero when there is none.
pub fn after_last_exec(s: &[char], c: char) -> (r: usize)
    ensures
        r == after_last(s@, c),
        r <= s@.len(),
{
    let mut i: usize = s.len();
    assert(s@.subrange(0, s@.len() as int) =~= s@);
    while i > 0 && s[i - 1] != c
        invariant
            i <= s@.len(),
            after_last(s@, c) == after_last(s@.subrange(0, i as int), c),
        decreases i,
    {
        assert(s@.subrange(0, i as int).drop_last() =~= s@.subrange(0, i - 1));
        i = i - 1;
    }
    if i > 0 {
        assert(s@.subrange(0, i as int).last() == c);
    }
    i
}

} // verus!
