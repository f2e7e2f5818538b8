//! Characters, bytes and decimal numbers: the small text toolkit that the
//! parsers and formatters of the library are built from.
use vstd::prelude::*;
use vstd::utf8::*;

verus! {

broadcast use vstd::utf8::group_utf8_lib;

// ------------------------------------------------------------------ strings

/// The characters of a string slice, in order.
pub fn chars_of(s: &str) -> (v: Vec<char>)
    ensures
        v@ == s@,
{
    let mut v: Vec<char> = Vec::new();
    for c in it: s.chars()
        invariant
            v@ == it.seq().take(it.index() as int),
    {
        v.push(c);
    }
    v
}

/// Builds a `String` from characters.
///
/// Trusted: std's `FromIterator<&char> for String` (`collect`), which
/// appends the characters in order; the contract claims that the string
/// holds exactly those characters.
#[verifier::external_body]
pub(crate) fn string_of(chars: &[char]) -> (s: String)
    ensures
        s@ == chars@,
{
    chars.iter().collect()
}

/// The characters that an ASCII byte sequence spells.
pub open spec fn ascii_chars(b: Seq<u8>) -> Seq<char> {
    Seq::new(b.len(), |i: int| b[i] as char)
}

pub open spec fn is_ascii_bytes(b: Seq<u8>) -> bool {
    forall|i: int| 0 <= i < b.len() ==> #[trigger] b[i] < 128
}

/// The UTF-8 encoding of the characters that ASCII bytes spell is those bytes.
pub proof fn lemma_ascii_round_trip(b: Seq<u8>)
    requires
        is_ascii_bytes(b),
    ensures
        is_ascii_chars(ascii_chars(b)),
        encode_utf8(ascii_chars(b)) == b,
{
    let c = ascii_chars(b);
    assert forall|i: int| 0 <= i < c.len() implies '\0' <= #[trigger] c[i] <= '\u{7f}' by {
        let x = b[i];
        assert(x < 128);
        assert(x as char <= '\u{7f}');
    }
    is_ascii_chars_encode_utf8(c);
    assert forall|i: int| 0 <= i < b.len() implies encode_utf8(c)[i] == b[i] by {
        let x = b[i];
        assert(c[i] == x as char);
        assert((x as char) as u8 == x);
    }
    assert(encode_utf8(c) =~= b);
}

/// A string made of ASCII bytes.
pub(crate) fn string_of_ascii(b: &[u8]) -> (s: String)
    requires
        is_ascii_bytes(b@),
    ensures
        s@ == ascii_chars(b@),
        encode_utf8(s@) == b@,
{
    let mut chars: Vec<char> = Vec::new();
    for i in 0..b.len()
        invariant
            chars@ == ascii_chars(b@.take(i as int)),
            is_ascii_bytes(b@),
    {
        let x = b[i];
        chars.push(x as char);
        assert(chars@ =~= ascii_chars(b@.take(i + 1)));
    }
    assert(b@.take(b.len() as int) =~= b@);
    proof {
        lemma_ascii_round_trip(b@);
    }
    string_of(&chars)
}

// ------------------------------------------------------------------ decimal numbers

pub open spec fn is_digit(b: u8) -> bool {
    48 <= b <= 57
}

pub open spec fn all_digits(s: Seq<u8>) -> bool {
    forall|i: int| 0 <= i < s.len() ==> is_digit(#[trigger] s[i])
}

/// The value of a run of decimal digits, most significant first.
pub open spec fn digits_value(s: Seq<u8>) -> nat
    decreases s.len(),
{
    if s.len() == 0 {
        0
    } else {
        digits_value(s.drop_last()) * 10 + (s.last() - 48) as nat
    }
}

/// What `str::parse` gives for a signed integer type with range `min..=max`:
/// an optional `+` or `-`, then one or more ASCII digits, the value in range.
pub open spec fn parse_signed(s: Seq<u8>, min: int, max: int) -> Option<int> {
    if s.len() >= 2 && (s[0] == 43 || s[0] == 45) && all_digits(s.skip(1)) {
        let v: int = if s[0] == 45 {
            -(digits_value(s.skip(1)) as int)
        } else {
            digits_value(s.skip(1)) as int
        };
        if min <= v <= max {
            Some(v)
        } else {
            None
        }
    } else if s.len() >= 1 && all_digits(s) {
        let v: int = digits_value(s) as int;
        if min <= v <= max {
            Some(v)
        } else {
            None
        }
    } else {
        None
    }
}

/// What `str::parse` gives for an unsigned integer type with range `0..=max`:
/// an optional `+`, then one or more ASCII digits, the value in range.
pub open spec fn parse_unsigned(s: Seq<u8>, max: int) -> Option<int> {
    if s.len() >= 2 && s[0] == 43 && all_digits(s.skip(1)) {
        if digits_value(s.skip(1)) <= max {
            Some(digits_value(s.skip(1)) as int)
        } else {
            None
        }
    } else if s.len() >= 1 && all_digits(s) {
        if digits_value(s) <= max {
            Some(digits_value(s) as int)
        } else {
            None
        }
    } else {
        None
    }
}

/// The decimal digits of a natural number, without leading zeros.
pub open spec fn nat_decimal(n: nat) -> Seq<u8>
    decreases n,
{
    if n < 10 {
        seq![(n + 48) as u8]
    } else {
        nat_decimal(n / 10).push((n % 10 + 48) as u8)
    }
}

/// `to_string` of an integer: a `-` for negative numbers, then the digits.
pub open spec fn int_decimal(n: int) -> Seq<u8> {
    if n < 0 {
        seq![45u8] + nat_decimal((-n) as nat)
    } else {
        nat_decimal(n as nat)
    }
}

proof fn lemma_digits_push(s: Seq<u8>, d: u8)
    ensures
        digits_value(s.push(d)) == digits_value(s) * 10 + (d - 48) as nat,
{
    assert(s.push(d).drop_last() =~= s);
}

/// The digits of `n` are digits, at least one, and read back as `n`.
pub proof fn lemma_nat_decimal(n: nat)
    ensures
        all_digits(nat_decimal(n)),
        nat_decimal(n).len() >= 1,
        digits_value(nat_decimal(n)) == n,
    decreases n,
{
    if n < 10 {
        let d = (n + 48) as u8;
        assert(d as int == n + 48);
        let s = seq![d];
        assert(s.drop_last() =~= Seq::<u8>::empty());
        assert(digits_value(s) == digits_value(s.drop_last()) * 10 + (s.last() - 48) as nat);
    } else {
        lemma_nat_decimal(n / 10);
        let d = (n % 10 + 48) as u8;
        assert(d as int == n % 10 + 48);
        lemma_digits_push(nat_decimal(n / 10), d);
        let s = nat_decimal(n / 10);
        assert(n == (n / 10) * 10 + n % 10);
        assert(digits_value(s.push(d)) == n);
        assert forall|i: int| 0 <= i < s.push(d).len() implies is_digit(#[trigger] s.push(d)[i]) by {
            if i < s.len() {
                assert(s.push(d)[i] == s[i]);
            }
        }
    }
}

/// Decimal formatting of an integer and signed parsing undo each other.
pub proof fn lemma_parse_int_decimal(n: int, min: int, max: int)
    requires
        min <= n <= max,
    ensures
        parse_signed(int_decimal(n), min, max) == Some(n),
{
    if n < 0 {
        let m = (-n) as nat;
        lemma_nat_decimal(m);
        let s = int_decimal(n);
        assert(s.skip(1) =~= nat_decimal(m));
    } else {
        lemma_nat_decimal(n as nat);
    }
}

/// Decimal formatting of a natural number and unsigned parsing undo each other.
pub proof fn lemma_parse_nat_decimal(n: nat, max: int)
    requires
        n <= max,
    ensures
        parse_unsigned(nat_decimal(n), max) == Some(n as int),
{
    lemma_nat_decimal(n);
}

/// The value of `s[start..]` when it is all digits and at most `bound`.
fn digits_bounded(s: &[u8], start: usize, bound: u64) -> (r: Option<u64>)
    requires
        start <= s@.len(),
    ensures
        r == (if all_digits(s@.skip(start as int)) && digits_value(s@.skip(start as int))
            <= bound {
            Some(digits_value(s@.skip(start as int)) as u64)
        } else {
            None
        }),
{
    let mut acc: u64 = 0;
    let mut over = false;
    let mut i = start;
    assert(s@.subrange(start as int, start as int) =~= Seq::<u8>::empty());
    while i < s.len()
        invariant
            start <= i <= s@.len(),
            all_digits(s@.subrange(start as int, i as int)),
            over ==> digits_value(s@.subrange(start as int, i as int)) > bound,
            !over ==> acc == digits_value(s@.subrange(start as int, i as int)) && acc <= bound,
        decreases s@.len() - i,
    {
        let b = s[i];
        let ghost prev = s@.subrange(start as int, i as int);
        assert(s@.subrange(start as int, i + 1) =~= prev.push(b));
        proof {
            lemma_digits_push(prev, b);
        }
        if b < 48 || b > 57 {
            assert(!all_digits(s@.skip(start as int))) by {
                assert(s@.skip(start as int)[i - start] == b);
            }
            return None;
        }
        if !over {
            let next: u128 = (acc as u128) * 10 + ((b - 48) as u128);
            if next > bound as u128 {
                over = true;
            } else {
                acc = next as u64;
            }
        }
        i = i + 1;
    }
    assert(s@.subrange(start as int, s@.len() as int) =~= s@.skip(start as int));
    if over {
        None
    } else {
        Some(acc)
    }
}

/// `str::parse::<i64>` on the bytes of a string.
pub fn parse_i64(s: &[u8]) -> (r: Option<i64>)
    ensures
        r == (match parse_signed(s@, i64::MIN as int, i64::MAX as int) {
            Some(v) => Some(v as i64),
            None => None,
        }),
{
    if s.len() == 0 {
        return None;
    }
    if s.len() >= 2 && (s[0] == 43 || s[0] == 45) {
        assert(!is_digit(s@[0]));
        if s[0] == 45 {
            match digits_bounded(s, 1, 0x8000_0000_0000_0000u64) {
                Some(v) => Some((0i128 - (v as i128)) as i64),
                None => None,
            }
        } else {
            match digits_bounded(s, 1, 0x7fff_ffff_ffff_ffffu64) {
                Some(v) => Some(v as i64),
                None => None,
            }
        }
    } else {
        match digits_bounded(s, 0, 0x7fff_ffff_ffff_ffffu64) {
            Some(v) => {
                assert(s@.skip(0) =~= s@);
                Some(v as i64)
            },
            None => {
                assert(s@.skip(0) =~= s@);
                None
            },
        }
    }
}

/// `str::parse` for an unsigned integer type whose largest value is `max`.
pub fn parse_unsigned_bytes(s: &[u8], max: u64) -> (r: Option<u64>)
    ensures
        r == (match parse_unsigned(s@, max as int) {
            Some(v) => Some(v as u64),
            None => None,
        }),
{
    assert(s@.skip(0) =~= s@);
    if s.len() == 0 {
        return None;
    }
    if s.len() >= 2 && s[0] == 43 {
        assert(!is_digit(s@[0]));
        digits_bounded(s, 1, max)
    } else {
        digits_bounded(s, 0, max)
    }
}

fn push_decimal(n: u64, out: &mut Vec<u8>)
    ensures
        final(out)@ == old(out)@ + nat_decimal(n as nat),
    decreases n,
{
    if n < 10 {
        out.push((n + 48) as u8);
        assert(final(out)@ =~= old(out)@ + nat_decimal(n as nat));
    } else {
        push_decimal(n / 10, out);
        out.push((n % 10 + 48) as u8);
        assert(final(out)@ =~= old(out)@ + nat_decimal(n as nat));
    }
}

/// The decimal digits of an unsigned number (`u64::to_string`).
pub fn decimal_u64(n: u64) -> (r: Vec<u8>)
    ensures
        r@ == nat_decimal(n as nat),
{
    let mut out: Vec<u8> = Vec::new();
    push_decimal(n, &mut out);
    assert(out@ =~= nat_decimal(n as nat));
    out
}

/// The decimal form of a signed number (`i64::to_string`).
pub fn decimal_i64(n: i64) -> (r: Vec<u8>)
    ensures
        r@ == int_decimal(n as int),
{
    let mut out: Vec<u8> = Vec::new();
    if n < 0 {
        out.push(45u8);
        let m: u64 = (0i128 - (n as i128)) as u64;
        push_decimal(m, &mut out);
        assert(out@ =~= int_decimal(n as int));
    } else {
        push_decimal(n as u64, &mut out);
        assert(out@ =~= int_decimal(n as int));
    }
    out
}

} // verus!

verus! {

// ------------------------------------------------------------------ byte runs

/// `s[from..to]` as a new vector.
pub(crate) fn copy_range(s: &[u8], from: usize, to: usize) -> (r: Vec<u8>)
    requires
        from <= to <= s@.len(),
    ensures
        r@ == s@.subrange(from as int, to as int),
{
    let mut r: Vec<u8> = Vec::new();
    let mut i = from;
    while i < to
        invariant
            from <= i <= to <= s@.len(),
            r@ == s@.subrange(from as int, i as int),
        decreases to - i,
    {
        r.push(s[i]);
        i = i + 1;
        assert(r@ =~= s@.subrange(from as int, i as int));
    }
    r
}

/// Byte-wise equality of two runs of bytes.
pub(crate) fn bytes_eq(a: &[u8], b: &[u8]) -> (r: bool)
    ensures
        r == (a@ == b@),
{
    if a.len() != b.len() {
        return false;
    }
    for i in 0..a.len()
        invariant
            a@.len() == b@.len(),
            forall|j: int| 0 <= j < i ==> a@[j] == b@[j],
    {
        if a[i] != b[i] {
            return false;
        }
    }
    assert(a@ =~= b@);
    true
}

/// The first position of `c` in `s`.
pub open spec fn is_first_index<A>(s: Seq<A>, c: A, i: int) -> bool {
    &&& 0 <= i < s.len()
    &&& s[i] == c
    &&& forall|j: int| 0 <= j < i ==> s[j] != c
}

/// `s` holds no `c`.
pub open spec fn lacks<A>(s: Seq<A>, c: A) -> bool {
    forall|i: int| 0 <= i < s.len() ==> s[i] != c
}

/// Where `c` first stands in `s`, if anywhere.
pub(crate) fn find_byte(s: &[u8], c: u8) -> (r: Option<usize>)
    ensures
        match r {
            Some(i) => is_first_index(s@, c, i as int),
            None => lacks(s@, c),
        },
{
    for i in 0..s.len()
        invariant
            forall|j: int| 0 <= j < i ==> s@[j] != c,
    {
        if s[i] == c {
            return Some(i);
        }
    }
    None
}

/// A run of digits holds no byte that is not a digit.
pub proof fn lemma_digits_lack(s: Seq<u8>, c: u8)
    requires
        all_digits(s),
        !is_digit(c),
    ensures
        lacks(s, c),
{
    assert forall|i: int| 0 <= i < s.len() implies s[i] != c by {
        assert(is_digit(s[i]));
    }
}

// ------------------------------------------------------------------ splitting

/// `str::split(sep)` on bytes: the runs between separators, empty runs kept;
/// `n` separators give `n + 1` runs.
pub open spec fn split_on<A>(s: Seq<A>, sep: A) -> Seq<Seq<A>>
    decreases s.len(),
{
    if s.len() == 0 {
        seq![Seq::<A>::empty()]
    } else {
        let prev = split_on(s.drop_last(), sep);
        if s.last() == sep {
            prev.push(Seq::<A>::empty())
        } else {
            prev.update(prev.len() - 1, prev.last().push(s.last()))
        }
    }
}

pub proof fn lemma_split_len<A>(s: Seq<A>, sep: A)
    ensures
        split_on(s, sep).len() >= 1,
    decreases s.len(),
{
    if s.len() > 0 {
        lemma_split_len(s.drop_last(), sep);
    }
}

/// Appending bytes without a separator extends the last run.
pub proof fn lemma_split_extend<A>(a: Seq<A>, b: Seq<A>, sep: A)
    requires
        lacks(b, sep),
    ensures
        split_on(a + b, sep) == split_on(a, sep).update(
            split_on(a, sep).len() - 1,
            split_on(a, sep).last() + b,
        ),
    decreases b.len(),
{
    lemma_split_len(a, sep);
    let p = split_on(a, sep);
    if b.len() == 0 {
        assert(a + b =~= a);
        assert(p.last() + b =~= p.last());
        assert(p.update(p.len() - 1, p.last()) =~= p);
    } else {
        let b0 = b.drop_last();
        assert forall|i: int| 0 <= i < b0.len() implies b0[i] != sep by {
            assert(b0[i] == b[i]);
        }
        lemma_split_extend(a, b0, sep);
        assert((a + b).drop_last() =~= a + b0);
        assert((a + b).last() == b.last());
        assert(b.last() != sep);
        let q = split_on(a + b0, sep);
        assert(q.len() == p.len());
        assert(q.last() == p.last() + b0);
        assert(p.last() + b0 + seq![b.last()] =~= p.last() + b);
        assert((p.last() + b0).push(b.last()) =~= p.last() + b);
        assert(q.update(q.len() - 1, q.last().push(b.last())) =~= p.update(
            p.len() - 1,
            p.last() + b,
        ));
    }
}

/// A separator and then a run without separators add that run.
pub proof fn lemma_split_field<A>(a: Seq<A>, field: Seq<A>, sep: A)
    requires
        lacks(field, sep),
    ensures
        split_on(a + seq![sep] + field, sep) == split_on(a, sep).push(field),
{
    lemma_split_len(a, sep);
    let with_sep = a + seq![sep];
    assert(with_sep.drop_last() =~= a);
    assert(split_on(with_sep, sep) == split_on(a, sep).push(Seq::<A>::empty()));
    lemma_split_extend(with_sep, field, sep);
    let p = split_on(with_sep, sep);
    assert(Seq::<A>::empty() + field =~= field);
    assert(p.update(p.len() - 1, p.last() + field) =~= split_on(a, sep).push(field));
}

/// A run without separators splits into itself.
pub proof fn lemma_split_single<A>(a: Seq<A>, sep: A)
    requires
        lacks(a, sep),
    ensures
        split_on(a, sep) == seq![a],
{
    lemma_split_extend(Seq::<A>::empty(), a, sep);
    assert(Seq::<A>::empty() + a =~= a);
    assert(seq![Seq::<A>::empty()].update(0, Seq::<A>::empty() + a) =~= seq![a]);
}

/// Text without a separator, then a separator and anything: the first part
/// is that text, and there are at least two parts.
pub proof fn lemma_split_first<A>(a: Seq<A>, b: Seq<A>, sep: A)
    requires
        lacks(a, sep),
        b.len() > 0,
        b[0] == sep,
    ensures
        split_on(a + b, sep).len() >= 2,
        split_on(a + b, sep)[0] == a,
    decreases b.len(),
{
    let s = a + b;
    assert(s.drop_last() =~= a + b.drop_last());
    if b.len() == 1 {
        assert(s.drop_last() =~= a);
        lemma_split_single(a, sep);
        assert(s.last() == sep);
    } else {
        assert(b.drop_last()[0] == sep);
        lemma_split_first(a, b.drop_last(), sep);
    }
}


// ------------------------------------------------------------------ whitespace

/// `char::is_whitespace`: the Unicode `White_Space` characters.
pub open spec fn is_ws(c: char) -> bool {
    let u = c as u32;
    ||| 9 <= u <= 13
    ||| u == 32
    ||| u == 0x85
    ||| u == 0xa0
    ||| u == 0x1680
    ||| 0x2000 <= u <= 0x200a
    ||| u == 0x2028
    ||| u == 0x2029
    ||| u == 0x202f
    ||| u == 0x205f
    ||| u == 0x3000
}

pub fn is_whitespace(c: char) -> (r: bool)
    ensures
        r == is_ws(c),
{
    let u = c as u32;
    (9 <= u && u <= 13) || u == 32 || u == 0x85 || u == 0xa0 || u == 0x1680 || (0x2000 <= u && u
        <= 0x200a) || u == 0x2028 || u == 0x2029 || u == 0x202f || u == 0x205f || u == 0x3000
}

/// `str::trim_start`: leading whitespace dropped.
pub open spec fn trim_start(s: Seq<char>) -> Seq<char>
    decreases s.len(),
{
    if s.len() > 0 && is_ws(s[0]) {
        trim_start(s.drop_first())
    } else {
        s
    }
}

/// `str::trim_end`: trailing whitespace dropped.
pub open spec fn trim_end(s: Seq<char>) -> Seq<char>
    decreases s.len(),
{
    if s.len() > 0 && is_ws(s.last()) {
        trim_end(s.drop_last())
    } else {
        s
    }
}

/// `str::trim`: whitespace dropped at both ends.
pub open spec fn trim(s: Seq<char>) -> Seq<char> {
    trim_end(trim_start(s))
}

/// Where the trimmed text starts and ends.
pub fn trim_bounds(s: &[char]) -> (r: (usize, usize))
    ensures
        r.0 <= r.1 <= s@.len(),
        trim(s@) == s@.subrange(r.0 as int, r.1 as int),
{
    let n = s.len();
    let mut i: usize = 0;
    assert(s@.skip(0) =~= s@);
    while i < n && is_whitespace(s[i])
        invariant
            i <= n == s@.len(),
            trim_start(s@) == trim_start(s@.skip(i as int)),
        decreases n - i,
    {
        assert(s@.skip(i as int).drop_first() =~= s@.skip(i + 1));
        i = i + 1;
    }
    assert(trim_start(s@) == s@.skip(i as int));
    let mut j: usize = n;
    assert(s@.skip(i as int) =~= s@.subrange(i as int, n as int));
    while j > i && is_whitespace(s[j - 1])
        invariant
            i <= j <= n == s@.len(),
            trim(s@) == trim_end(s@.subrange(i as int, j as int)),
        decreases j,
    {
        assert(s@.subrange(i as int, j as int).drop_last() =~= s@.subrange(i as int, j - 1));
        j = j - 1;
    }
    (i, j)
}

/// `s[from..to]` as a new vector of characters.
pub(crate) fn copy_chars(s: &[char], from: usize, to: usize) -> (r: Vec<char>)
    requires
        from <= to <= s@.len(),
    ensures
        r@ == s@.subrange(from as int, to as int),
{
    let mut r: Vec<char> = Vec::new();
    let mut i = from;
    while i < to
        invariant
            from <= i <= to <= s@.len(),
            r@ == s@.subrange(from as int, i as int),
        decreases to - i,
    {
        r.push(s[i]);
        i = i + 1;
        assert(r@ =~= s@.subrange(from as int, i as int));
    }
    r
}

/// The characters with whitespace trimmed at both ends.
pub fn trim_chars(s: &[char]) -> (r: Vec<char>)
    ensures
        r@ == trim(s@),
{
    let (a, b) = trim_bounds(s);
    copy_chars(s, a, b)
}

/// Character-wise equality.
pub(crate) fn chars_eq(a: &[char], b: &[char]) -> (r: bool)
    ensures
        r == (a@ == b@),
{
    if a.len() != b.len() {
        return false;
    }
    for i in 0..a.len()
        invariant
            a@.len() == b@.len(),
            forall|j: int| 0 <= j < i ==> a@[j] == b@[j],
    {
        if a[i] != b[i] {
            return false;
        }
    }
    assert(a@ =~= b@);
    true
}

/// Where `c` first stands among characters, if anywhere.
pub(crate) fn find_char(s: &[char], c: char) -> (r: Option<usize>)
    ensures
        match r {
            Some(i) => is_first_index(s@, c, i as int),
            None => lacks(s@, c),
        },
{
    for i in 0..s.len()
        invariant
            forall|j: int| 0 <= j < i ==> s@[j] != c,
    {
        if s[i] == c {
            return Some(i);
        }
    }
    None
}

/// Splits characters at every `sep`.
pub(crate) fn split_chars(s: &[char], sep: char) -> (parts: Vec<Vec<char>>)
    ensures
        parts@.map_values(|p: Vec<char>| p@) == split_on(s@, sep),
{
    let mut parts: Vec<Vec<char>> = Vec::new();
    let mut cur: Vec<char> = Vec::new();
    assert(s@.take(0) =~= Seq::<char>::empty());
    assert(parts@.map_values(|p: Vec<char>| p@).push(cur@) =~= seq![Seq::<char>::empty()]);
    for i in 0..s.len()
        invariant
            split_on(s@.take(i as int), sep) == parts@.map_values(|p: Vec<char>| p@).push(cur@),
    {
        let c = s[i];
        assert(s@.take(i + 1).drop_last() =~= s@.take(i as int));
        assert(s@.take(i + 1).last() == c);
        if c == sep {
            let ghost old_parts = parts@;
            parts.push(cur);
            cur = Vec::new();
            assert(parts@.map_values(|p: Vec<char>| p@) =~= old_parts.map_values(|p: Vec<char>| p@).push(
                parts@.map_values(|p: Vec<char>| p@).last(),
            ));
            assert(parts@.map_values(|p: Vec<char>| p@).push(cur@) =~= split_on(
                s@.take(i + 1),
                sep,
            ));
        } else {
            let ghost old_cur = cur@;
            cur.push(c);
            assert(parts@.map_values(|p: Vec<char>| p@).push(cur@) =~= parts@.map_values(
                |p: Vec<char>| p@,
            ).push(old_cur).update(parts@.len() as int, old_cur.push(c)));
        }
    }
    assert(s@.take(s@.len() as int) =~= s@);
    let ghost old_parts = parts@;
    parts.push(cur);
    assert(parts@.map_values(|p: Vec<char>| p@) =~= old_parts.map_values(|p: Vec<char>| p@).push(
        parts@.map_values(|p: Vec<char>| p@).last(),
    ));
    parts
}

/// Appends characters.
pub(crate) fn push_chars(out: &mut Vec<char>, more: &[char])
    ensures
        final(out)@ == old(out)@ + more@,
{
    for i in 0..more.len()
        invariant
            out@ == old(out)@ + more@.take(i as int),
    {
        out.push(more[i]);
        assert(out@ =~= old(out)@ + more@.take(i + 1));
    }
    assert(more@.take(more@.len() as int) =~= more@);
}


/// The first position of a value is unique.
pub proof fn lemma_first_index_unique<A>(s: Seq<A>, c: A, i: int, j: int)
    requires
        is_first_index(s, c, i),
        is_first_index(s, c, j),
    ensures
        i == j,
{
    if i < j {
        assert(s[i] != c);
    } else if j < i {
        assert(s[j] != c);
    }
}

/// The characters that ASCII bytes spell.
pub(crate) fn ascii_to_chars(b: &[u8]) -> (r: Vec<char>)
    ensures
        r@ == ascii_chars(b@),
{
    let mut chars: Vec<char> = Vec::new();
    for i in 0..b.len()
        invariant
            chars@ == ascii_chars(b@.take(i as int)),
    {
        let x = b[i];
        chars.push(x as char);
        assert(chars@ =~= ascii_chars(b@.take(i + 1)));
    }
    assert(b@.take(b.len() as int) =~= b@);
    chars
}


/// The pieces, trimmed, with the empty ones dropped (in order).
pub open spec fn trimmed_nonempty(parts: Seq<Seq<char>>) -> Seq<Seq<char>>
    decreases parts.len(),
{
    if parts.len() == 0 {
        Seq::<Seq<char>>::empty()
    } else {
        let prev = trimmed_nonempty(parts.drop_last());
        let t = trim(parts.last());
        if t.len() > 0 {
            prev.push(t)
        } else {
            prev
        }
    }
}

pub open spec fn string_views(v: Seq<String>) -> Seq<Seq<char>> {
    v.map_values(|s: String| s@)
}

/// Splits at `sep`, trims every piece and keeps the non-empty ones.
pub fn split_trimmed(s: &[char], sep: char) -> (r: Vec<String>)
    ensures
        string_views(r@) == trimmed_nonempty(split_on(s@, sep)),
{
    let parts = split_chars(s, sep);
    let ghost all = split_on(s@, sep);
    let mut out: Vec<String> = Vec::new();
    assert(all.take(0) =~= Seq::<Seq<char>>::empty());
    assert(string_views(out@) =~= trimmed_nonempty(all.take(0)));
    for k in 0..parts.len()
        invariant
            all == split_on(s@, sep),
            all == parts@.map_values(|p: Vec<char>| p@),
            string_views(out@) == trimmed_nonempty(all.take(k as int)),
    {
        assert(all.take(k + 1).drop_last() =~= all.take(k as int));
        assert(all.take(k + 1).last() == parts@[k as int]@);
        let t = trim_chars(&parts[k]);
        if t.len() > 0 {
            let ghost before = out@;
            out.push(string_of(&t));
            assert(string_views(out@) =~= string_views(before).push(t@));
        }
    }
    assert(all.take(parts@.len() as int) =~= all);
    out
}

/// `char::to_ascii_lowercase`.
pub open spec fn lower_char(c: char) -> char {
    if 'A' <= c <= 'Z' {
        ((c as u32) + 32) as char
    } else {
        c
    }
}

/// `str::to_ascii_lowercase`.
pub open spec fn ascii_lower(s: Seq<char>) -> Seq<char> {
    s.map_values(|c: char| lower_char(c))
}

pub fn to_ascii_lower(s: &[char]) -> (r: Vec<char>)
    ensures
        r@ == ascii_lower(s@),
{
    let mut out: Vec<char> = Vec::new();
    for i in 0..s.len()
        invariant
            out@ == ascii_lower(s@.take(i as int)),
    {
        let c = s[i];
        let l = if 'A' <= c && c <= 'Z' {
            let b = (c as u8) + 32;
            assert(b as char == lower_char(c));
            b as char
        } else {
            c
        };
        out.push(l);
        assert(out@ =~= ascii_lower(s@.take(i + 1)));
    }
    assert(s@.take(s@.len() as int) =~= s@);
    out
}


/// Characters `s[0..n]` (all of them when there are fewer).
pub fn take_chars(s: &[char], n: usize) -> (r: Vec<char>)
    ensures
        r@ == (if s@.len() <= n {
            s@
        } else {
            s@.take(n as int)
        }),
{
    let end = if s.len() <= n {
        s.len()
    } else {
        n
    };
    let r = copy_chars(s, 0, end);
    assert(s@.len() <= n ==> r@ =~= s@);
    assert(s@.len() > n ==> r@ =~= s@.take(n as int));
    r
}

/// Whether two texts are equal ignoring ASCII case (`str::eq_ignore_ascii_case`).
pub open spec fn eq_ignore_case(a: Seq<char>, b: Seq<char>) -> bool {
    ascii_lower(a) == ascii_lower(b)
}

pub fn eq_ignore_ascii_case(a: &[char], b: &[char]) -> (r: bool)
    ensures
        r == eq_ignore_case(a@, b@),
{
    let la = to_ascii_lower(a);
    let lb = to_ascii_lower(b);
    chars_eq(&la, &lb)
}


// ------------------------------------------------------------------ text order

/// The order of `str` (lexicographic; characters by code point, which is
/// the byte order of their UTF-8 encodings).
pub open spec fn text_lt(a: Seq<char>, b: Seq<char>) -> bool
    decreases a.len(),
{
    if a.len() == 0 {
        b.len() > 0
    } else if b.len() == 0 {
        false
    } else if a[0] != b[0] {
        a[0] < b[0]
    } else {
        text_lt(a.drop_first(), b.drop_first())
    }
}

pub proof fn lemma_text_lt_irreflexive(a: Seq<char>)
    ensures
        !text_lt(a, a),
    decreases a.len(),
{
    if a.len() > 0 {
        lemma_text_lt_irreflexive(a.drop_first());
    }
}

pub proof fn lemma_text_lt_transitive(a: Seq<char>, b: Seq<char>, c: Seq<char>)
    requires
        text_lt(a, b),
        text_lt(b, c),
    ensures
        text_lt(a, c),
    decreases a.len(),
{
    if a.len() > 0 && b.len() > 0 && c.len() > 0 {
        if a[0] == b[0] && b[0] == c[0] {
            lemma_text_lt_transitive(a.drop_first(), b.drop_first(), c.drop_first());
        }
    }
}

pub proof fn lemma_text_lt_total(a: Seq<char>, b: Seq<char>)
    ensures
        a == b || text_lt(a, b) || text_lt(b, a),
    decreases a.len(),
{
    if a.len() > 0 && b.len() > 0 {
        if a[0] == b[0] {
            lemma_text_lt_total(a.drop_first(), b.drop_first());
            if a.drop_first() == b.drop_first() {
                assert(a =~= seq![a[0]] + a.drop_first());
                assert(b =~= seq![b[0]] + b.drop_first());
            }
        }
    } else if a.len() == 0 && b.len() == 0 {
        assert(a =~= b);
    }
}

/// Whether `a` orders before `b`.
pub fn text_less(a: &[char], b: &[char]) -> (r: bool)
    ensures
        r == text_lt(a@, b@),
{
    let mut i: usize = 0;
    assert(a@.skip(0) =~= a@ && b@.skip(0) =~= b@);
    while i < a.len() && i < b.len() && a[i] == b[i]
        invariant
            i <= a@.len(),
            i <= b@.len(),
            text_lt(a@, b@) == text_lt(a@.skip(i as int), b@.skip(i as int)),
        decreases a@.len() - i,
    {
        assert(a@.skip(i as int).drop_first() =~= a@.skip(i + 1));
        assert(b@.skip(i as int).drop_first() =~= b@.skip(i + 1));
        i = i + 1;
    }
    if i == a.len() {
        i < b.len()
    } else if i == b.len() {
        false
    } else {
        assert(a@.skip(i as int)[0] == a@[i as int]);
        assert(b@.skip(i as int)[0] == b@[i as int]);
        a[i] < b[i]
    }
}

/// `s` with `prefix` at its start.
pub open spec fn starts_with(s: Seq<char>, prefix: Seq<char>) -> bool {
    prefix.len() <= s.len() && s.take(prefix.len() as int) == prefix
}

/// `s` with `suffix` at its end.
pub open spec fn ends_with(s: Seq<char>, suffix: Seq<char>) -> bool {
    suffix.len() <= s.len() && s.skip(s.len() - suffix.len()) == suffix
}

pub fn has_prefix(s: &[char], prefix: &[char]) -> (r: bool)
    ensures
        r == starts_with(s@, prefix@),
{
    if prefix.len() > s.len() {
        return false;
    }
    for i in 0..prefix.len()
        invariant
            prefix@.len() <= s@.len(),
            forall|k: int| 0 <= k < i ==> s@[k] == prefix@[k],
    {
        if s[i] != prefix[i] {
            assert(s@.take(prefix@.len() as int)[i as int] != prefix@[i as int]);
            return false;
        }
    }
    assert(s@.take(prefix@.len() as int) =~= prefix@);
    true
}

pub fn has_suffix(s: &[char], suffix: &[char]) -> (r: bool)
    ensures
        r == ends_with(s@, suffix@),
{
    if suffix.len() > s.len() {
        return false;
    }
    let start = s.len() - suffix.len();
    for i in 0..suffix.len()
        invariant
            start + suffix@.len() == s@.len(),
            start + suffix@.len() == s.len(),
            forall|k: int| 0 <= k < i ==> s@[start + k] == suffix@[k],
    {
        if s[start + i] != suffix[i] {
            assert(s@.skip(start as int)[i as int] != suffix@[i as int]);
            return false;
        }
    }
    assert(s@.skip(start as int) =~= suffix@);
    true
}

/// Whether `pat` occurs somewhere in `s`.
pub open spec fn contains_text(s: Seq<char>, pat: Seq<char>) -> bool {
    exists|i: int| 0 <= i <= s.len() - pat.len() && #[trigger] s.subrange(i, i + pat.len()) == pat
}

pub fn contains(s: &[char], pat: &[char]) -> (r: bool)
    ensures
        r == contains_text(s@, pat@),
{
    if pat.len() > s.len() {
        return false;
    }
    if pat.len() == 0 {
        assert(s@.subrange(0, 0 + pat@.len() as int) =~= pat@);
        assert(contains_text(s@, pat@));
        return true;
    }
    let last = s.len() - pat.len();
    let mut i: usize = 0;
    while i <= last
        invariant
            last + pat@.len() == s@.len(),
            last + pat.len() == s.len(),
            pat@.len() > 0,
            i <= last + 1,
            forall|k: int| 0 <= k < i ==> #[trigger] s@.subrange(k, k + pat@.len()) != pat@,
        decreases last + 1 - i,
    {
        let piece = copy_chars(s, i, i + pat.len());
        if chars_eq(&piece, pat) {
            return true;
        }
        i = i + 1;
    }
    false
}

} // verus!
