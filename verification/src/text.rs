//! String helpers with their meaning stated over characters: splitting, comparing by
//! bytes, parsing and printing numbers.
use vstd::prelude::*;

verus! {

/// The characters of `s`, in order.
pub fn chars_of(s: &str) -> (v: Vec<char>)
    ensures
        v@ == s@,
{
    let mut v: Vec<char> = Vec::new();
    for c in it: s.chars()
        invariant
            v@ == it.seq().take(it.index() as int),
            it.seq() == s@,
    {
        v.push(c);
    }
    v
}

} // verus!

verus! {

/// A fresh `String` holding the characters `from..to` of `s`.
pub fn substring(s: &str, from: usize, to: usize) -> (r: String)
    requires
        from <= to <= s@.len(),
    ensures
        r@ == s@.subrange(from as int, to as int),
{
    String::from_str(s.substring_char(from, to))
}

/// Whether `c` occurs in `s`.
pub fn contains_char(s: &str, c: char) -> (r: bool)
    ensures
        r == s@.contains(c),
{
    let v = chars_of(s);
    let mut i: usize = 0;
    while i < v.len()
        invariant
            v@ == s@,
            i <= v@.len(),
            forall|j: int| 0 <= j < i ==> v@[j] != c,
        decreases v@.len() - i,
    {
        if v[i] == c {
            assert(s@[i as int] == c);
            return true;
        }
        i = i + 1;
    }
    false
}

/// The pieces of `s` between occurrences of `sep`, so far: the finished non-empty pieces,
/// and the piece still being read.
pub open spec fn pieces_state(s: Seq<char>, sep: char) -> (Seq<Seq<char>>, Seq<char>)
    decreases s.len(),
{
    if s.len() == 0 {
        (Seq::empty(), Seq::empty())
    } else {
        let (done, cur) = pieces_state(s.drop_last(), sep);
        if s.last() == sep {
            (if cur.len() > 0 { done.push(cur) } else { done }, Seq::empty())
        } else {
            (done, cur.push(s.last()))
        }
    }
}

/// The non-empty pieces of `s` between occurrences of `sep`, in order (what
/// `s.split(sep).filter(|p| !p.is_empty())` yields).
pub open spec fn nonempty_pieces(s: Seq<char>, sep: char) -> Seq<Seq<char>> {
    let (done, cur) = pieces_state(s, sep);
    if cur.len() > 0 {
        done.push(cur)
    } else {
        done
    }
}

pub open spec fn string_views(v: Seq<String>) -> Seq<Seq<char>> {
    v.map_values(|s: String| s@)
}

/// The non-empty pieces of `s` between occurrences of `sep`.
pub fn split_nonempty(s: &str, sep: char) -> (r: Vec<String>)
    ensures
        string_views(r@) == nonempty_pieces(s@, sep),
{
    let v = chars_of(s);
    let mut done: Vec<String> = Vec::new();
    let mut start: usize = 0;
    let mut i: usize = 0;
    while i < v.len()
        invariant
            v@ == s@,
            start <= i <= v@.len(),
            string_views(done@) == pieces_state(s@.take(i as int), sep).0,
            s@.subrange(start as int, i as int) == pieces_state(s@.take(i as int), sep).1,
        decreases v@.len() - i,
    {
        assert(s@.take(i + 1).drop_last() == s@.take(i as int));
        if v[i] == sep {
            if start < i {
                let piece = substring(s, start, i);
                let ghost before = done@;
                done.push(piece);
                assert(string_views(done@) =~= string_views(before).push(piece@));
            }
            start = i + 1;
        } else {
            assert(s@.subrange(start as int, i + 1) == s@.subrange(start as int, i as int).push(
                s@[i as int],
            ));
        }
        i = i + 1;
    }
    assert(s@.take(v@.len() as int) == s@);
    if start < v.len() {
        let piece = substring(s, start, v.len());
        let ghost before = done@;
        done.push(piece);
        assert(string_views(done@) =~= string_views(before).push(piece@));
    }
    done
}

} // verus!

verus! {

/// Lexicographic order on byte strings (a proper prefix comes first).
pub open spec fn bytes_lt(a: Seq<u8>, b: Seq<u8>) -> bool
    decreases a.len(),
{
    if a.len() == 0 {
        b.len() > 0
    } else if b.len() == 0 {
        false
    } else if a[0] != b[0] {
        a[0] < b[0]
    } else {
        bytes_lt(a.drop_first(), b.drop_first())
    }
}

/// The order of `str` in Rust: lexicographic on the UTF-8 encodings.
pub open spec fn str_lt(a: Seq<char>, b: Seq<char>) -> bool {
    bytes_lt(vstd::utf8::encode_utf8(a), vstd::utf8::encode_utf8(b))
}

pub proof fn lemma_bytes_lt_irreflexive(a: Seq<u8>)
    ensures
        !bytes_lt(a, a),
    decreases a.len(),
{
    if a.len() > 0 {
        lemma_bytes_lt_irreflexive(a.drop_first());
    }
}

pub proof fn lemma_bytes_lt_transitive(a: Seq<u8>, b: Seq<u8>, c: Seq<u8>)
    requires
        bytes_lt(a, b),
        bytes_lt(b, c),
    ensures
        bytes_lt(a, c),
    decreases a.len(),
{
    if a.len() > 0 && b.len() > 0 && c.len() > 0 && a[0] == b[0] && b[0] == c[0] {
        lemma_bytes_lt_transitive(a.drop_first(), b.drop_first(), c.drop_first());
    }
}

pub proof fn lemma_bytes_lt_total(a: Seq<u8>, b: Seq<u8>)
    requires
        a != b,
    ensures
        bytes_lt(a, b) || bytes_lt(b, a),
    decreases a.len(),
{
    if a.len() == 0 {
        assert(b.len() > 0) by {
            if b.len() == 0 {
                assert(a =~= b);
            }
        }
    } else if b.len() > 0 && a[0] == b[0] {
        if a.drop_first() == b.drop_first() {
            assert(a =~= seq![a[0]] + a.drop_first());
            assert(b =~= seq![b[0]] + b.drop_first());
        }
        lemma_bytes_lt_total(a.drop_first(), b.drop_first());
    }
}

pub proof fn lemma_bytes_lt_asymmetric(a: Seq<u8>, b: Seq<u8>)
    requires
        bytes_lt(a, b),
    ensures
        !bytes_lt(b, a),
{
    if bytes_lt(b, a) {
        lemma_bytes_lt_transitive(a, b, a);
        lemma_bytes_lt_irreflexive(a);
    }
}

pub proof fn lemma_encode_injective(a: Seq<char>, b: Seq<char>)
    requires
        vstd::utf8::encode_utf8(a) == vstd::utf8::encode_utf8(b),
    ensures
        a == b,
{
    vstd::utf8::encode_utf8_decode_utf8(a);
    vstd::utf8::encode_utf8_decode_utf8(b);
}

/// `str_lt` is a strict total order.
pub proof fn lemma_str_lt_order(a: Seq<char>, b: Seq<char>, c: Seq<char>)
    ensures
        !str_lt(a, a),
        str_lt(a, b) ==> !str_lt(b, a),
        str_lt(a, b) && str_lt(b, c) ==> str_lt(a, c),
        a != b ==> str_lt(a, b) || str_lt(b, a),
{
    let ea = vstd::utf8::encode_utf8(a);
    let eb = vstd::utf8::encode_utf8(b);
    let ec = vstd::utf8::encode_utf8(c);
    lemma_bytes_lt_irreflexive(ea);
    if bytes_lt(ea, eb) {
        lemma_bytes_lt_asymmetric(ea, eb);
        if bytes_lt(eb, ec) {
            lemma_bytes_lt_transitive(ea, eb, ec);
        }
    }
    if a != b {
        if ea == eb {
            lemma_encode_injective(a, b);
        }
        lemma_bytes_lt_total(ea, eb);
    }
}

proof fn lemma_bytes_lt_skip(a: Seq<u8>, b: Seq<u8>, i: int)
    requires
        0 <= i < a.len(),
        i < b.len(),
        a[i] == b[i],
    ensures
        bytes_lt(a.skip(i), b.skip(i)) == bytes_lt(a.skip(i + 1), b.skip(i + 1)),
{
    assert(a.skip(i).drop_first() =~= a.skip(i + 1));
    assert(b.skip(i).drop_first() =~= b.skip(i + 1));
}

/// Whether `a` sorts before `b` in Rust's order on strings.
pub fn str_less(a: &str, b: &str) -> (r: bool)
    ensures
        r == str_lt(a@, b@),
{
    let x = a.as_bytes();
    let y = b.as_bytes();
    let mut i: usize = 0;
    assert(x@.skip(0) == x@);
    assert(y@.skip(0) == y@);
    while i < x.len() && i < y.len()
        invariant
            x@ == vstd::utf8::encode_utf8(a@),
            y@ == vstd::utf8::encode_utf8(b@),
            i <= x@.len(),
            i <= y@.len(),
            bytes_lt(x@, y@) == bytes_lt(x@.skip(i as int), y@.skip(i as int)),
        decreases x@.len() - i,
    {
        if x[i] != y[i] {
            return x[i] < y[i];
        }
        proof {
            lemma_bytes_lt_skip(x@, y@, i as int);
        }
        i = i + 1;
    }
    i < y.len()
}

} // verus!

verus! {

/// `s` without its trailing run of `c` (what `trim_end_matches(c)` leaves).
pub open spec fn trim_end(s: Seq<char>, c: char) -> Seq<char>
    decreases s.len(),
{
    if s.len() > 0 && s.last() == c {
        trim_end(s.drop_last(), c)
    } else {
        s
    }
}

/// The position of the last `c` in `s`.
pub open spec fn last_index_of(s: Seq<char>, c: char) -> Option<int>
    decreases s.len(),
{
    if s.len() == 0 {
        None
    } else if s.last() == c {
        Some(s.len() - 1)
    } else {
        last_index_of(s.drop_last(), c)
    }
}

/// The length of `v` once its trailing run of `c` is removed.
pub fn trimmed_len(v: &Vec<char>, c: char) -> (n: usize)
    ensures
        n <= v@.len(),
        trim_end(v@, c) == v@.take(n as int),
{
    let mut n = v.len();
    assert(v@.take(n as int) =~= v@);
    while n > 0 && v[n - 1] == c
        invariant
            n <= v@.len(),
            trim_end(v@, c) == trim_end(v@.take(n as int), c),
        decreases n,
    {
        assert(v@.take(n as int).drop_last() =~= v@.take(n - 1));
        n = n - 1;
    }
    n
}

/// The position of the last `c` among the first `n` characters of `v`.
pub fn last_index_in(v: &Vec<char>, n: usize, c: char) -> (r: Option<usize>)
    requires
        n <= v@.len(),
    ensures
        match r {
            Some(i) => last_index_of(v@.take(n as int), c) == Some(i as int) && i < n,
            None => last_index_of(v@.take(n as int), c) is None,
        },
{
    let mut k = n;
    while k > 0
        invariant
            k <= n <= v@.len(),
            last_index_of(v@.take(n as int), c) == last_index_of(v@.take(k as int), c),
        decreases k,
    {
        assert(v@.take(k as int).drop_last() =~= v@.take(k - 1));
        if v[k - 1] == c {
            return Some(k - 1);
        }
        k = k - 1;
    }
    None
}

pub proof fn lemma_last_index_of_bounds(s: Seq<char>, c: char)
    ensures
        match last_index_of(s, c) {
            Some(i) => 0 <= i < s.len() && s[i] == c,
            None => !s.contains(c),
        },
    decreases s.len(),
{
    if s.len() > 0 && s.last() != c {
        lemma_last_index_of_bounds(s.drop_last(), c);
        if s.contains(c) {
            let j = choose|j: int| 0 <= j < s.len() && s[j] == c;
            assert(s.drop_last()[j] == c);
        }
    }
}

} // verus!

verus! {

/// The value of `c` as a digit in base `radix` (what `char::to_digit` gives).
pub open spec fn digit_value(c: char, radix: nat) -> Option<nat> {
    let d: int = if '0' <= c && c <= '9' {
        c as int - '0' as int
    } else if 'a' <= c && c <= 'z' {
        c as int - 'a' as int + 10
    } else if 'A' <= c && c <= 'Z' {
        c as int - 'A' as int + 10
    } else {
        -1
    };
    if 0 <= d < radix {
        Some(d as nat)
    } else {
        None
    }
}

pub open spec fn all_digits(s: Seq<char>, radix: nat) -> bool {
    forall|i: int| 0 <= i < s.len() ==> (#[trigger] digit_value(s[i], radix)) is Some
}

/// The number that the digits `s` write in base `radix`.
pub open spec fn digits_value(s: Seq<char>, radix: nat) -> nat
    decreases s.len(),
{
    if s.len() == 0 {
        0
    } else {
        digits_value(s.drop_last(), radix) * radix + match digit_value(s.last(), radix) {
            Some(d) => d,
            None => 0,
        }
    }
}

/// What `u64::from_str_radix(s, radix)` returns, `None` standing for every error: an
/// optional `+`, then one or more digits, of a value that fits in 64 bits.
pub open spec fn parse_u64_spec(s: Seq<char>, radix: nat) -> Option<u64> {
    let d = if s.len() > 0 && s[0] == '+' {
        s.drop_first()
    } else {
        s
    };
    if d.len() > 0 && all_digits(d, radix) && digits_value(d, radix) <= u64::MAX {
        Some(digits_value(d, radix) as u64)
    } else {
        None
    }
}

proof fn lemma_digits_value_grows(s: Seq<char>, radix: nat, i: int)
    requires
        radix >= 2,
        0 <= i <= s.len(),
    ensures
        digits_value(s.take(i), radix) <= digits_value(s, radix),
    decreases s.len() - i,
{
    if i < s.len() {
        lemma_digits_value_grows(s, radix, i + 1);
        let t = s.take(i + 1);
        assert(t.drop_last() =~= s.take(i));
        let v = digits_value(s.take(i), radix);
        assert(v <= v * radix) by (nonlinear_arith)
            requires
                radix >= 2,
        ;
    } else {
        assert(s.take(i) =~= s);
    }
}

fn digit_of(c: char, radix: u32) -> (r: Option<u32>)
    requires
        2 <= radix <= 36,
    ensures
        match digit_value(c, radix as nat) {
            Some(d) => r == Some(d as u32),
            None => r is None,
        },
{
    let d: u32 = if '0' <= c && c <= '9' {
        (c as u32) - ('0' as u32)
    } else if 'a' <= c && c <= 'z' {
        (c as u32) - ('a' as u32) + 10
    } else if 'A' <= c && c <= 'Z' {
        (c as u32) - ('A' as u32) + 10
    } else {
        return None;
    };
    if d < radix {
        Some(d)
    } else {
        None
    }
}

/// Parses the characters `from..to` of `v` as a `u64` in base `radix`, the way
/// `u64::from_str_radix` does.
pub fn parse_u64_chars(v: &Vec<char>, from: usize, to: usize, radix: u32) -> (r: Option<u64>)
    requires
        from <= to <= v@.len(),
        2 <= radix <= 36,
    ensures
        r == parse_u64_spec(v@.subrange(from as int, to as int), radix as nat),
{
    let ghost s = v@.subrange(from as int, to as int);
    let mut start = from;
    if from < to && v[from] == '+' {
        start = from + 1;
    }
    let ghost d = v@.subrange(start as int, to as int);
    assert(d =~= if s.len() > 0 && s[0] == '+' {
        s.drop_first()
    } else {
        s
    });
    if start == to {
        return None;
    }
    let mut value: u64 = 0;
    let mut i = start;
    assert(d.take(0) =~= Seq::<char>::empty());
    while i < to
        invariant
            from <= start <= i <= to <= v@.len(),
            2 <= radix <= 36,
            d == v@.subrange(start as int, to as int),
            s == v@.subrange(from as int, to as int),
            d.len() > 0,
            d == (if s.len() > 0 && s[0] == '+' {
                s.drop_first()
            } else {
                s
            }),
            all_digits(d.take(i - start), radix as nat),
            value == digits_value(d.take(i - start), radix as nat),
        decreases to - i,
    {
        let k = i - start;
        assert(d.take(k + 1).drop_last() =~= d.take(k as int));
        assert(d[k as int] == v@[i as int]);
        match digit_of(v[i], radix) {
            None => {
                assert(!all_digits(d, radix as nat)) by {
                    assert(digit_value(d[k as int], radix as nat) is None);
                }
                return None;
            },
            Some(digit) => {
                let next = match value.checked_mul(radix as u64) {
                    Some(m) => m.checked_add(digit as u64),
                    None => None,
                };
                match next {
                    Some(n) => {
                        value = n;
                    },
                    None => {
                        proof {
                            assert(d.take(k + 1).last() == d[k as int]);
                            assert(digits_value(d.take(k + 1), radix as nat) == value * radix
                                + digit);
                            assert(value * radix + digit > u64::MAX);
                            if all_digits(d, radix as nat) {
                                lemma_digits_value_grows(d, radix as nat, k + 1);
                            }
                        }
                        return None;
                    },
                }
            },
        }
        i = i + 1;
        assert forall|j: int| 0 <= j < i - start implies (#[trigger] digit_value(
            d.take(i - start)[j],
            radix as nat,
        )) is Some by {
            if j < k {
                assert(d.take(i - start)[j] == d.take(k as int)[j]);
            }
        }
    }
    assert(d.take(to - start) =~= d);
    Some(value)
}

/// Parses `s` as a decimal `u64`, the way `str::parse::<u64>` does.
pub fn parse_u64(s: &str) -> (r: Option<u64>)
    ensures
        r == parse_u64_spec(s@, 10),
{
    let v = chars_of(s);
    assert(v@.subrange(0, v@.len() as int) =~= v@);
    parse_u64_chars(&v, 0, v.len(), 10)
}

} // verus!

verus! {

pub open spec fn decimal_digits() -> Seq<char> {
    seq!['0', '1', '2', '3', '4', '5', '6', '7', '8', '9']
}

/// The decimal numeral of `n` (what `n.to_string()` gives).
pub open spec fn decimal(n: nat) -> Seq<char>
    decreases n,
{
    if n < 10 {
        seq![decimal_digits()[n as int]]
    } else {
        decimal(n / 10).push(decimal_digits()[(n % 10) as int])
    }
}

fn digit_str(d: u64) -> (s: &'static str)
    requires
        d < 10,
    ensures
        s@ == seq![decimal_digits()[d as int]],
{
    proof {
        reveal_strlit("0123456789");
        assert("0123456789"@ =~= decimal_digits());
    }
    let s = "0123456789".substring_char(d as usize, d as usize + 1);
    assert(s@ =~= seq![decimal_digits()[d as int]]);
    s
}

/// The decimal numeral of `n`.
pub fn decimal_string(n: u64) -> (r: String)
    ensures
        r@ == decimal(n as nat),
    decreases n,
{
    if n < 10 {
        String::from_str(digit_str(n))
    } else {
        let mut s = decimal_string(n / 10);
        s.append(digit_str(n % 10));
        assert(s@ =~= decimal((n / 10) as nat).push(decimal_digits()[(n % 10) as int]));
        s
    }
}

/// `a` followed by `b`.
pub fn join_strs(a: &str, b: &str) -> (r: String)
    ensures
        r@ == a@ + b@,
{
    let mut s = String::from_str(a);
    s.append(b);
    s
}

/// Whether `s` begins with `prefix`.
pub fn starts_with(s: &str, prefix: &str) -> (r: bool)
    ensures
        r == (prefix@.len() <= s@.len() && s@.take(prefix@.len() as int) == prefix@),
{
    let v = chars_of(s);
    let p = chars_of(prefix);
    if p.len() > v.len() {
        return false;
    }
    let mut i: usize = 0;
    while i < p.len()
        invariant
            v@ == s@,
            p@ == prefix@,
            p@.len() <= v@.len(),
            i <= p@.len(),
            forall|j: int| 0 <= j < i ==> v@[j] == p@[j],
        decreases p@.len() - i,
    {
        if v[i] != p[i] {
            assert(s@.take(prefix@.len() as int)[i as int] != prefix@[i as int]);
            return false;
        }
        i = i + 1;
    }
    assert(s@.take(prefix@.len() as int) =~= prefix@);
    true
}

} // verus!

verus! {

pub open spec fn colons_at(s: Seq<char>, i: int) -> bool {
    0 <= i && i + 1 < s.len() && s[i] == ':' && s[i + 1] == ':'
}

/// The position of the first `::` in `s`.
#[verifier::opaque]
pub open spec fn first_colons(s: Seq<char>) -> Option<int> {
    if exists|i: int| colons_at(s, i) {
        Some(choose|i: int| colons_at(s, i) && forall|j: int| 0 <= j < i ==> !colons_at(s, j))
    } else {
        None
    }
}

/// What `s.split_once("::")` gives: the text before the first `::` and the text after it.
pub open spec fn split_colons(s: Seq<char>) -> Option<(Seq<char>, Seq<char>)> {
    match first_colons(s) {
        Some(i) => Some((s.take(i), s.skip(i + 2))),
        None => None,
    }
}

pub proof fn lemma_first_colons(s: Seq<char>, i: int)
    requires
        colons_at(s, i),
        forall|j: int| 0 <= j < i ==> !colons_at(s, j),
    ensures
        first_colons(s) == Some(i),
{
    reveal(first_colons);
    let k = choose|k: int| colons_at(s, k) && forall|j: int| 0 <= j < k ==> !colons_at(s, j);
    assert(colons_at(s, k) && forall|j: int| 0 <= j < k ==> !colons_at(s, j));
    if k < i {
        assert(!colons_at(s, k));
    }
    if k > i {
        assert(!colons_at(s, i));
    }
}

/// Splits `s` at its first `::`.
pub fn split_once_colons(s: &str) -> (r: Option<(String, String)>)
    ensures
        match split_colons(s@) {
            Some((a, b)) => r matches Some((x, y)) && x@ == a && y@ == b,
            None => r is None,
        },
{
    let v = chars_of(s);
    let mut i: usize = 0;
    while i < v.len() && i + 1 < v.len()
        invariant
            v@ == s@,
            i <= v@.len(),
            forall|j: int| 0 <= j < i ==> !colons_at(s@, j),
        decreases v@.len() - i,
    {
        if v[i] == ':' && v[i + 1] == ':' {
            proof {
                lemma_first_colons(s@, i as int);
            }
            let a = substring(s, 0, i);
            let b = substring(s, i + 2, v.len());
            assert(a@ =~= s@.take(i as int));
            assert(b@ =~= s@.skip(i + 2));
            return Some((a, b));
        }
        i = i + 1;
    }
    reveal(first_colons);
    assert(!exists|j: int| colons_at(s@, j)) by {
        assert forall|j: int| !colons_at(s@, j) by {
            if colons_at(s@, j) {
                assert(j < i);
            }
        }
    }
    None
}

} // verus!

verus! {

proof fn lemma_decimal_digit(k: nat)
    requires
        k < 10,
    ensures
        digit_value(decimal_digits()[k as int], 10) == Some(k),
        decimal_digits()[k as int] != '+',
        decimal_digits()[k as int] != ':',
{
    if k == 0 {
    } else if k == 1 {
    } else if k == 2 {
    } else if k == 3 {
    } else if k == 4 {
    } else if k == 5 {
    } else if k == 6 {
    } else if k == 7 {
    } else if k == 8 {
    } else {
    }
}

/// Every character of a decimal numeral is a digit (in particular not `:`).
pub proof fn lemma_decimal_chars(n: nat)
    ensures
        decimal(n).len() > 0,
        all_digits(decimal(n), 10),
        digits_value(decimal(n), 10) == n,
        forall|i: int| 0 <= i < decimal(n).len() ==> (#[trigger] decimal(n)[i]) != ':' && decimal(n)[i]
            != '+',
    decreases n,
{
    if n < 10 {
        lemma_decimal_digit(n);
        let s = decimal(n);
        assert(s.drop_last() =~= Seq::<char>::empty());
        assert(s.last() == decimal_digits()[n as int]);
        assert(digits_value(s, 10) == digits_value(s.drop_last(), 10) * 10 + n);
    } else {
        lemma_decimal_chars(n / 10);
        lemma_decimal_digit(n % 10);
        let s = decimal(n);
        assert(s.drop_last() =~= decimal(n / 10));
        assert(s.last() == decimal_digits()[(n % 10) as int]);
        assert(n == (n / 10) * 10 + n % 10);
        assert(digits_value(s, 10) == digits_value(s.drop_last(), 10) * 10 + n % 10);
        assert forall|i: int| 0 <= i < s.len() implies (#[trigger] digit_value(s[i], 10)) is Some by {
            if i < s.len() - 1 {
                assert(s[i] == decimal(n / 10)[i]);
            }
        }
    }
}

/// Reading back a decimal numeral gives the number.
pub proof fn lemma_parse_decimal(n: u64)
    ensures
        parse_u64_spec(decimal(n as nat), 10) == Some(n),
{
    lemma_decimal_chars(n as nat);
}

} // verus!
