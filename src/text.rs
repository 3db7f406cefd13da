//! Character-level text handling: whitespace, trimming, line and token
//! splitting, decimal numerals and hexadecimal formatting.
use vstd::prelude::*;

verus! {

/// The characters of `s`, in order.
pub fn chars_of(s: &str) -> (r: Vec<char>)
    ensures
        r@ == s@,
{
    let mut out: Vec<char> = Vec::new();
    for c in it: s.chars()
        invariant
            out@ == it.seq().take(it.index() as int),
    {
        out.push(c);
    }
    out
}

/// What `str::to_uppercase` makes of a character sequence.
pub uninterp spec fn upper_of(s: Seq<char>) -> Seq<char>;

/// Relies on `str::to_uppercase`: Unicode upper-case mapping, whose result
/// depends on the characters alone.
#[verifier::external_body]
pub(crate) fn to_upper(s: &[char]) -> (r: Vec<char>)
    ensures
        r@ == upper_of(s@),
{
    s.iter().collect::<String>().to_uppercase().chars().collect()
}

/// Relies on `String`'s `FromIterator<char>`: the string of the given
/// characters, in order.
#[verifier::external_body]
pub(crate) fn string_from(cs: &[char]) -> (r: String)
    ensures
        r@ == cs@,
{
    cs.iter().collect()
}

/// Unicode `White_Space`, the set that `char::is_whitespace` tests.
pub open spec fn is_ws(c: char) -> bool {
    let u = c as u32;
    (0x9 <= u <= 0xd) || u == 0x20 || u == 0x85 || u == 0xa0 || u == 0x1680 || (0x2000 <= u
        <= 0x200a) || u == 0x2028 || u == 0x2029 || u == 0x202f || u == 0x205f || u == 0x3000
}

pub fn is_whitespace(c: char) -> (r: bool)
    ensures
        r == is_ws(c),
{
    let u = c as u32;
    (0x9 <= u && u <= 0xd) || u == 0x20 || u == 0x85 || u == 0xa0 || u == 0x1680 || (0x2000 <= u
        && u <= 0x200a) || u == 0x2028 || u == 0x2029 || u == 0x202f || u == 0x205f || u == 0x3000
}

/// `s` without its leading whitespace.
pub open spec fn trim_start(s: Seq<char>) -> Seq<char>
    decreases s.len(),
{
    if s.len() > 0 && is_ws(s[0]) {
        trim_start(s.drop_first())
    } else {
        s
    }
}

/// `s` without its trailing whitespace.
pub open spec fn trim_end(s: Seq<char>) -> Seq<char>
    decreases s.len(),
{
    if s.len() > 0 && is_ws(s.last()) {
        trim_end(s.drop_last())
    } else {
        s
    }
}

/// `s` without whitespace at either end.
pub open spec fn trim(s: Seq<char>) -> Seq<char> {
    trim_end(trim_start(s))
}

/// `s` without its leading characters that occur in `cs`.
pub open spec fn strip_start(s: Seq<char>, cs: Seq<char>) -> Seq<char>
    decreases s.len(),
{
    if s.len() > 0 && cs.contains(s[0]) {
        strip_start(s.drop_first(), cs)
    } else {
        s
    }
}

/// `s` without its trailing characters that occur in `cs`.
pub open spec fn strip_end(s: Seq<char>, cs: Seq<char>) -> Seq<char>
    decreases s.len(),
{
    if s.len() > 0 && cs.contains(s.last()) {
        strip_end(s.drop_last(), cs)
    } else {
        s
    }
}

pub open spec fn starts_with(s: Seq<char>, p: Seq<char>) -> bool {
    p.len() <= s.len() && s.subrange(0, p.len() as int) == p
}

/// The pieces of `s` between occurrences of `sep`; there is always one more
/// piece than separators.
pub open spec fn split_on(s: Seq<char>, sep: char) -> Seq<Seq<char>>
    decreases s.len(),
{
    if s.len() == 0 {
        seq![Seq::empty()]
    } else {
        let prev = split_on(s.drop_last(), sep);
        if s.last() == sep {
            prev.push(Seq::empty())
        } else {
            prev.update(prev.len() - 1, prev.last().push(s.last()))
        }
    }
}

/// Scanning `s` from the left: the words completed so far and the word
/// being read.
pub open spec fn scan_words(s: Seq<char>) -> (Seq<Seq<char>>, Seq<char>)
    decreases s.len(),
{
    if s.len() == 0 {
        (Seq::empty(), Seq::empty())
    } else {
        let prev = scan_words(s.drop_last());
        let c = s.last();
        if is_ws(c) {
            (
                if prev.1.len() > 0 {
                    prev.0.push(prev.1)
                } else {
                    prev.0
                },
                Seq::empty(),
            )
        } else {
            (prev.0, prev.1.push(c))
        }
    }
}

/// The maximal runs of non-whitespace characters of `s`, in order.
pub open spec fn words(s: Seq<char>) -> Seq<Seq<char>> {
    let sc = scan_words(s);
    if sc.1.len() > 0 {
        sc.0.push(sc.1)
    } else {
        sc.0
    }
}

pub open spec fn views(v: Seq<Vec<char>>) -> Seq<Seq<char>> {
    v.map_values(|x: Vec<char>| x@)
}

pub open spec fn is_digit(c: char) -> bool {
    '0' <= c && c <= '9'
}

pub open spec fn digit_value(c: char) -> nat {
    (c as u32 - '0' as u32) as nat
}

pub open spec fn all_digits(s: Seq<char>) -> bool {
    forall|i: int| 0 <= i < s.len() ==> is_digit(#[trigger] s[i])
}

/// The value of a string of decimal digits.
pub open spec fn dec_value(s: Seq<char>) -> nat
    decreases s.len(),
{
    if s.len() == 0 {
        0
    } else {
        dec_value(s.drop_last()) * 10 + digit_value(s.last())
    }
}

/// The value of `d` when it is a non-empty string of decimal digits whose
/// value is at most `bound`.
pub open spec fn numeral_within(d: Seq<char>, bound: nat) -> Option<nat> {
    if d.len() > 0 && all_digits(d) && dec_value(d) <= bound {
        Some(dec_value(d))
    } else {
        None
    }
}

/// `s` without one leading `c`, if it starts with one.
pub open spec fn skip_sign(s: Seq<char>, c: char) -> Seq<char> {
    if s.len() > 0 && s[0] == c {
        s.drop_first()
    } else {
        s
    }
}

/// An unsigned integer in decimal, with an optional leading `+`, read as
/// Rust's unsigned integer parsing reads it, when its value is at most
/// `bound`.
pub open spec fn unsigned_within(s: Seq<char>, bound: nat) -> Option<nat> {
    numeral_within(skip_sign(s, '+'), bound)
}

/// A signed integer in decimal with an optional `+` or `-`, read as
/// `i32`'s parsing reads it.
pub open spec fn signed_i32(s: Seq<char>) -> Option<int> {
    if s.len() > 0 && s[0] == '-' {
        match numeral_within(s.drop_first(), 0x8000_0000) {
            Some(v) => Some(-v),
            None => None,
        }
    } else {
        match unsigned_within(s, 0x7fff_ffff) {
            Some(v) => Some(v as int),
            None => None,
        }
    }
}

proof fn lemma_dec_value_prefix(s: Seq<char>, k: int)
    requires
        0 <= k <= s.len(),
    ensures
        dec_value(s.take(k)) <= dec_value(s),
    decreases s.len(),
{
    if k < s.len() {
        assert(s.drop_last().take(k) == s.take(k));
        lemma_dec_value_prefix(s.drop_last(), k);
    } else {
        assert(s.take(k) == s);
    }
}

/// Reads `s[start..]` as a decimal numeral of value at most `bound`.
pub fn numeral_from(s: &[char], start: usize, bound: u64) -> (r: Option<u64>)
    requires
        start <= s@.len(),
        bound <= 0x1_0000_0000,
    ensures
        r == match numeral_within(s@.subrange(start as int, s@.len() as int), bound as nat) {
            Some(v) => Some(v as u64),
            None => None::<u64>,
        },
{
    let ghost d = s@.subrange(start as int, s@.len() as int);
    if start == s.len() {
        return None;
    }
    let mut acc: u64 = 0;
    let mut i: usize = start;
    while i < s.len()
        invariant
            start <= i <= s@.len(),
            d == s@.subrange(start as int, s@.len() as int),
            bound <= 0x1_0000_0000,
            acc <= bound,
            acc == dec_value(d.take(i - start)),
            all_digits(d.take(i - start)),
        decreases s@.len() - i,
    {
        let c = s[i];
        let ghost p = d.take(i - start);
        assert(d.take(i + 1 - start) == p.push(c));
        assert(d.take(i + 1 - start).drop_last() == p);
        if !('0' <= c && c <= '9') {
            assert(!is_digit(d[i - start]));
            return None;
        }
        let v: u64 = acc * 10 + (c as u32 - '0' as u32) as u64;
        if v > bound {
            proof {
                if all_digits(d) {
                    lemma_dec_value_prefix(d, i + 1 - start);
                }
            }
            return None;
        }
        acc = v;
        i = i + 1;
    }
    assert(d.take(i - start) == d);
    Some(acc)
}

/// `s` as an unsigned decimal with an optional `+`, at most `bound`.
pub fn unsigned_decimal(s: &[char], bound: u64) -> (r: Option<u64>)
    requires
        bound <= 0x1_0000_0000,
    ensures
        r == match unsigned_within(s@, bound as nat) {
            Some(v) => Some(v as u64),
            None => None::<u64>,
        },
{
    let start: usize = if s.len() > 0 && s[0] == '+' {
        1
    } else {
        0
    };
    assert(s@.subrange(start as int, s@.len() as int) =~= skip_sign(s@, '+'));
    numeral_from(s, start, bound)
}

/// Whether `s` starts with `p`.
pub fn has_prefix(s: &[char], p: &[char]) -> (r: bool)
    ensures
        r == starts_with(s@, p@),
{
    if p.len() > s.len() {
        return false;
    }
    let mut i: usize = 0;
    while i < p.len()
        invariant
            p@.len() <= s@.len(),
            i <= p@.len(),
            forall|j: int| 0 <= j < i ==> s@[j] == p@[j],
        decreases p@.len() - i,
    {
        if s[i] != p[i] {
            assert(s@.subrange(0, p@.len() as int)[i as int] != p@[i as int]);
            return false;
        }
        i = i + 1;
    }
    assert(s@.subrange(0, p@.len() as int) =~= p@);
    true
}

/// Whether `a` and `b` hold the same characters.
pub fn same_chars(a: &[char], b: &[char]) -> (r: bool)
    ensures
        r == (a@ == b@),
{
    if a.len() != b.len() {
        return false;
    }
    let r = has_prefix(a, b);
    proof {
        assert(a@ =~= a@.subrange(0, b@.len() as int));
    }
    r
}

/// A copy of `s[from..to]`.
pub fn copy_range(s: &[char], from: usize, to: usize) -> (r: Vec<char>)
    requires
        from <= to <= s@.len(),
    ensures
        r@ == s@.subrange(from as int, to as int),
{
    let mut out: Vec<char> = Vec::new();
    let mut i: usize = from;
    while i < to
        invariant
            from <= i <= to <= s@.len(),
            out@ == s@.subrange(from as int, i as int),
        decreases to - i,
    {
        out.push(s[i]);
        i = i + 1;
        assert(out@ =~= s@.subrange(from as int, i as int));
    }
    out
}

proof fn lemma_trim_start_skip(s: Seq<char>, i: int)
    requires
        0 <= i < s.len(),
        is_ws(s[i]),
    ensures
        trim_start(s.subrange(i, s.len() as int)) == trim_start(s.subrange(i + 1, s.len() as int)),
{
    let t = s.subrange(i, s.len() as int);
    assert(t.drop_first() =~= s.subrange(i + 1, s.len() as int));
}

proof fn lemma_trim_end_skip(s: Seq<char>, j: int)
    requires
        0 < j <= s.len(),
        is_ws(s[j - 1]),
    ensures
        trim_end(s.subrange(0, j)) == trim_end(s.subrange(0, j - 1)),
{
    let t = s.subrange(0, j);
    assert(t.drop_last() =~= s.subrange(0, j - 1));
}

/// `s` without whitespace at either end.
pub fn trimmed(s: &[char]) -> (r: Vec<char>)
    ensures
        r@ == trim(s@),
{
    let n = s.len();
    let mut i: usize = 0;
    assert(s@.subrange(0, n as int) =~= s@);
    while i < n && is_whitespace(s[i])
        invariant
            i <= n == s@.len(),
            trim_start(s@) == trim_start(s@.subrange(i as int, n as int)),
        decreases n - i,
    {
        proof {
            lemma_trim_start_skip(s@, i as int);
        }
        i = i + 1;
    }
    let ghost t = s@.subrange(i as int, n as int);
    assert(trim_start(s@) == t);
    let mut j: usize = n;
    assert(t.subrange(0, j - i) =~= t);
    while j > i && is_whitespace(s[j - 1])
        invariant
            i <= j <= n == s@.len(),
            t == s@.subrange(i as int, n as int),
            trim_end(t) == trim_end(t.subrange(0, j - i)),
        decreases j,
    {
        proof {
            lemma_trim_end_skip(t, j - i);
            assert(t.subrange(0, j - i - 1) =~= t.subrange(0, (j - 1 - i) as int));
        }
        j = j - 1;
    }
    assert(trim_end(t.subrange(0, j - i)) == t.subrange(0, j - i));
    assert(t.subrange(0, j - i) =~= s@.subrange(i as int, j as int));
    copy_range(s, i, j)
}

/// Whether `c` occurs in `cs`.
pub fn contains_char(cs: &[char], c: char) -> (r: bool)
    ensures
        r == cs@.contains(c),
{
    let mut i: usize = 0;
    while i < cs.len()
        invariant
            i <= cs@.len(),
            forall|j: int| 0 <= j < i ==> cs@[j] != c,
        decreases cs@.len() - i,
    {
        if cs[i] == c {
            assert(cs@[i as int] == c);
            return true;
        }
        i = i + 1;
    }
    false
}

/// `s` without its leading characters that occur in `cs`.
pub fn strip_front(s: &[char], cs: &[char]) -> (r: Vec<char>)
    ensures
        r@ == strip_start(s@, cs@),
{
    let n = s.len();
    let mut i: usize = 0;
    assert(s@.subrange(0, n as int) =~= s@);
    while i < n && contains_char(cs, s[i])
        invariant
            i <= n == s@.len(),
            strip_start(s@, cs@) == strip_start(s@.subrange(i as int, n as int), cs@),
        decreases n - i,
    {
        assert(s@.subrange(i as int, n as int).drop_first() =~= s@.subrange(i + 1, n as int));
        i = i + 1;
    }
    copy_range(s, i, n)
}

/// `s` without its trailing characters that occur in `cs`.
pub fn strip_back(s: &[char], cs: &[char]) -> (r: Vec<char>)
    ensures
        r@ == strip_end(s@, cs@),
{
    let n = s.len();
    let mut j: usize = n;
    assert(s@.subrange(0, n as int) =~= s@);
    while j > 0 && contains_char(cs, s[j - 1])
        invariant
            j <= n == s@.len(),
            strip_end(s@, cs@) == strip_end(s@.subrange(0, j as int), cs@),
        decreases j,
    {
        assert(s@.subrange(0, j as int).drop_last() =~= s@.subrange(0, j - 1));
        j = j - 1;
    }
    assert(s@.subrange(0, n as int) =~= s@);
    copy_range(s, 0, j)
}

/// The pieces of `s` between occurrences of `sep`.
pub fn split_chars(s: &[char], sep: char) -> (r: Vec<Vec<char>>)
    ensures
        views(r@) == split_on(s@, sep),
{
    let mut out: Vec<Vec<char>> = Vec::new();
    let mut cur: Vec<char> = Vec::new();
    let mut i: usize = 0;
    assert(s@.take(0) =~= Seq::<char>::empty());
    assert(views(out@).push(cur@) =~= split_on(s@.take(0), sep));
    while i < s.len()
        invariant
            i <= s@.len(),
            views(out@).push(cur@) == split_on(s@.take(i as int), sep),
        decreases s@.len() - i,
    {
        let c = s[i];
        let ghost prev = split_on(s@.take(i as int), sep);
        assert(s@.take(i + 1).drop_last() =~= s@.take(i as int));
        assert(s@.take(i + 1).last() == c);
        if c == sep {
            let done = cur;
            out.push(done);
            cur = Vec::new();
            assert(views(out@) =~= prev);
        } else {
            cur.push(c);
            assert(views(out@).push(cur@) =~= prev.update(prev.len() - 1, prev.last().push(c)));
        }
        i = i + 1;
    }
    assert(s@.take(i as int) =~= s@);
    out.push(cur);
    assert(views(out@) =~= split_on(s@, sep));
    out
}

/// The maximal runs of non-whitespace characters of `s`.
pub fn split_words(s: &[char]) -> (r: Vec<Vec<char>>)
    ensures
        views(r@) == words(s@),
{
    let mut out: Vec<Vec<char>> = Vec::new();
    let mut cur: Vec<char> = Vec::new();
    let mut i: usize = 0;
    assert(s@.take(0) =~= Seq::<char>::empty());
    while i < s.len()
        invariant
            i <= s@.len(),
            (views(out@), cur@) == scan_words(s@.take(i as int)),
        decreases s@.len() - i,
    {
        let c = s[i];
        assert(s@.take(i + 1).drop_last() =~= s@.take(i as int));
        assert(s@.take(i + 1).last() == c);
        if is_whitespace(c) {
            if cur.len() > 0 {
                let ghost before = out@;
                let done = cur;
                out.push(done);
                assert(views(out@) =~= views(before).push(done@));
            }
            cur = Vec::new();
        } else {
            cur.push(c);
        }
        i = i + 1;
    }
    assert(s@.take(i as int) =~= s@);
    if cur.len() > 0 {
        out.push(cur);
    }
    assert(views(out@) =~= words(s@));
    out
}

/// The lowercase hexadecimal digit for `d < 16`.
pub open spec fn hex_char(d: nat) -> char {
    if d < 10 {
        (('0' as u32) + d) as char
    } else {
        (('a' as u32) + d - 10) as char
    }
}

/// The shortest lowercase hexadecimal numeral for `v` (`"0"` for zero).
pub open spec fn hex_of_nat(v: nat) -> Seq<char>
    decreases v,
{
    if v < 16 {
        seq![hex_char(v)]
    } else {
        hex_of_nat(v / 16).push(hex_char(v % 16))
    }
}

/// Two hexadecimal digits per byte, most significant first.
pub open spec fn byte_digits(b: Seq<u8>) -> Seq<char> {
    Seq::new(
        2 * b.len(),
        |i: int|
            if i % 2 == 0 {
                hex_char((b[i / 2] / 16) as nat)
            } else {
                hex_char((b[i / 2] % 16) as nat)
            },
    )
}

/// The big-endian bytes `b` as a lowercase hexadecimal numeral with no
/// leading zeros (`"0"` when every byte is zero or there is none).
pub open spec fn hex_of_bytes(b: Seq<u8>) -> Seq<char> {
    let t = strip_start(byte_digits(b), seq!['0']);
    if t.len() == 0 {
        seq!['0']
    } else {
        t
    }
}

pub fn hex_digit(d: u8) -> (r: char)
    requires
        d < 16,
    ensures
        r == hex_char(d as nat),
{
    if d < 10 {
        ((48u8 + d) as char)
    } else {
        ((87u8 + d) as char)
    }
}

/// `v` in lowercase hexadecimal, as `format!("{:x}", v)` writes it.
pub fn hex_u64(v: u64) -> (r: Vec<char>)
    ensures
        r@ == hex_of_nat(v as nat),
{
    let mut out: Vec<char> = Vec::new();
    let mut cur: u64 = v;
    while cur >= 16
        invariant
            hex_of_nat(v as nat) == hex_of_nat(cur as nat) + out@,
        decreases cur,
    {
        let d = hex_digit((cur % 16) as u8);
        let ghost rest = out@;
        out.insert(0, d);
        assert(hex_of_nat(cur as nat) == hex_of_nat((cur / 16) as nat).push(d));
        assert(hex_of_nat((cur / 16) as nat).push(d) + rest =~= hex_of_nat((cur / 16) as nat)
            + out@);
        cur = cur / 16;
    }
    let d = hex_digit(cur as u8);
    let ghost rest = out@;
    out.insert(0, d);
    assert(hex_of_nat(cur as nat) + rest =~= out@) by {
        assert(hex_of_nat(cur as nat) == seq![d]);
    }
    out
}

/// The big-endian bytes `b` in lowercase hexadecimal without leading zeros.
pub fn hex_bytes(b: &[u8]) -> (r: Vec<char>)
    ensures
        r@ == hex_of_bytes(b@),
{
    let mut digits: Vec<char> = Vec::new();
    let mut i: usize = 0;
    while i < b.len()
        invariant
            i <= b@.len(),
            digits@ == byte_digits(b@.take(i as int)),
        decreases b@.len() - i,
    {
        let x = b[i];
        digits.push(hex_digit(x / 16));
        digits.push(hex_digit(x % 16));
        i = i + 1;
        assert(digits@ =~= byte_digits(b@.take(i as int)));
    }
    assert(b@.take(i as int) =~= b@);
    let zero = vec!['0'];
    assert(zero@ =~= seq!['0']);
    let t = strip_front(&digits, &zero);
    if t.len() == 0 {
        zero
    } else {
        t
    }
}

} // verus!
