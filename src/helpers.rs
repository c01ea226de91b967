use vstd::prelude::*;
use vstd::string::StringExecFns;

verus! {

/// Whether `c` is an ASCII decimal digit.
pub open spec fn is_digit(c: char) -> bool {
    '0' <= c <= '9'
}

/// The value of the decimal digit `c`.
pub open spec fn digit_value(c: char) -> int {
    c as int - '0' as int
}

/// The value of a string of decimal digits (0 for the empty string).
pub open spec fn digits_value(s: Seq<char>) -> int
    decreases s.len(),
{
    if s.len() == 0 {
        0
    } else {
        digits_value(s.drop_last()) * 10 + digit_value(s.last())
    }
}

/// The digits of an unsigned number, after an optional leading `+`.
pub open spec fn unsigned_digits(s: Seq<char>) -> Seq<char> {
    if s.len() > 0 && s[0] == '+' {
        s.subrange(1, s.len() as int)
    } else {
        s
    }
}

/// What `s` reads as, as an unsigned number: an optional `+`, then one or
/// more decimal digits whose value fits in `usize`; nothing else.
pub open spec fn usize_of(s: Seq<char>) -> Option<usize> {
    let d = unsigned_digits(s);
    if d.len() > 0 && (forall|i: int| 0 <= i < d.len() ==> is_digit(#[trigger] d[i])) && digits_value(d)
        <= usize::MAX {
        Some(digits_value(d) as usize)
    } else {
        None
    }
}

/// The place of the last `_` among the first `k` characters of `s`, or -1.
pub open spec fn last_underscore(s: Seq<char>, k: int) -> int
    decreases k,
{
    if k <= 0 {
        -1
    } else if s[k - 1] == '_' {
        k - 1
    } else {
        last_underscore(s, k - 1)
    }
}

/// The part of `s` after its last `_` (all of `s` when it has none).
pub open spec fn after_last_underscore(s: Seq<char>) -> Seq<char> {
    s.subrange(last_underscore(s, s.len() as int) + 1, s.len() as int)
}

/// The generation that a checkpoint file named `name` holds: the number
/// after the last `_` of its name.
pub open spec fn generation_of(name: Seq<char>) -> Option<usize> {
    usize_of(after_last_underscore(name))
}

/// Digit strings have a value of at least zero.
proof fn lemma_digits_nonneg(s: Seq<char>)
    requires
        forall|i: int| 0 <= i < s.len() ==> is_digit(#[trigger] s[i]),
    ensures
        digits_value(s) >= 0,
    decreases s.len(),
{
    if s.len() > 0 {
        lemma_digits_nonneg(s.drop_last());
    }
}

/// Reads `s` as an unsigned number, as `usize_of` describes.
pub fn parse_usize(s: &str) -> (r: Option<usize>)
    ensures
        r == usize_of(s@),
{
    let n = s.unicode_len();
    let mut i: usize = 0;
    if n > 0 && s.get_char(0) == '+' {
        i = 1;
    }
    let start = i;
    let ghost d = unsigned_digits(s@);
    assert(d =~= s@.subrange(start as int, n as int));
    if start == n {
        return None;
    }
    let mut value: usize = 0;
    let mut too_big = false;
    while i < n
        invariant
            n == s@.len(),
            start <= i <= n,
            start < n,
            d == s@.subrange(start as int, n as int),
            d == unsigned_digits(s@),
            forall|j: int| start <= j < i ==> is_digit(#[trigger] s@[j]),
            !too_big ==> value == digits_value(s@.subrange(start as int, i as int)),
            too_big ==> digits_value(s@.subrange(start as int, i as int)) > usize::MAX,
        decreases n - i,
    {
        let c = s.get_char(i);
        if !('0' <= c && c <= '9') {
            assert(d[i - start] == c);
            assert(!is_digit(d[i - start]));
            assert(!(forall|j: int| 0 <= j < d.len() ==> is_digit(#[trigger] d[j])));
            return None;
        }
        let ghost prefix = s@.subrange(start as int, i as int);
        let ghost next = s@.subrange(start as int, i + 1);
        assert(next.drop_last() =~= prefix);
        proof {
            lemma_digits_nonneg(prefix);
        }
        let digit = (c as u32 - '0' as u32) as usize;
        if !too_big {
            if value > (usize::MAX - digit) / 10 {
                too_big = true;
            } else {
                value = value * 10 + digit;
            }
        }
        i = i + 1;
    }
    assert(s@.subrange(start as int, n as int) =~= d);
    if too_big {
        None
    } else {
        Some(value)
    }
}

/// The generation that a checkpoint file named `name` holds, as
/// `generation_of` describes.
pub fn generation_suffix(name: &str) -> (r: Option<usize>)
    ensures
        r == generation_of(name@),
{
    let n = name.unicode_len();
    let mut k: usize = n;
    while k > 0 && name.get_char(k - 1) != '_'
        invariant
            n == name@.len(),
            k <= n,
            last_underscore(name@, n as int) == last_underscore(name@, k as int),
        decreases k,
    {
        k = k - 1;
    }
    assert(last_underscore(name@, n as int) + 1 == k);
    let tail = name.substring_char(k, n);
    parse_usize(tail)
}

/// The newest checkpoint among `names`: the place and the generation of the
/// name with the largest generation, the last one among equals; `None`
/// when no name carries a generation.
pub fn newest_generation(names: &Vec<String>) -> (r: Option<(usize, usize)>)
    ensures
        r is None <==> forall|i: int| 0 <= i < names@.len() ==> generation_of(#[trigger] names@[i]@) is None,
        r matches Some((i, g)) ==> {
            &&& i < names@.len()
            &&& generation_of(names@[i as int]@) == Some(g)
            &&& forall|j: int| 0 <= j < names@.len() ==> (#[trigger] generation_of(names@[j]@) matches Some(h) ==> h <= g)
            &&& forall|j: int| i < j < names@.len() ==> #[trigger] generation_of(names@[j]@) != Some(g)
        },
{
    let mut best: Option<(usize, usize)> = None;
    let mut i: usize = 0;
    while i < names.len()
        invariant
            i <= names@.len(),
            best is None <==> forall|j: int| 0 <= j < i ==> generation_of(#[trigger] names@[j]@) is None,
            best matches Some((b, g)) ==> {
                &&& b < i
                &&& generation_of(names@[b as int]@) == Some(g)
                &&& forall|j: int| 0 <= j < i ==> (#[trigger] generation_of(names@[j]@) matches Some(h) ==> h <= g)
                &&& forall|j: int| b < j < i ==> #[trigger] generation_of(names@[j]@) != Some(g)
            },
        decreases names@.len() - i,
    {
        match generation_suffix(names[i].as_str()) {
            Some(g) => {
                match best {
                    Some((_, h)) => {
                        if g >= h {
                            best = Some((i, g));
                        }
                    },
                    None => {
                        best = Some((i, g));
                    },
                }
            },
            None => {},
        }
        i = i + 1;
    }
    best
}

/// The column that a line typed by a player names: the line, without a
/// final `\n` (and a `\r` before it), must read as a number from 1 to 7;
/// the result counts from 0.
pub open spec fn column_of_line(line: Seq<char>) -> Option<usize> {
    let t = if line.len() > 0 && line.last() == '\n' {
        let u = line.drop_last();
        if u.len() > 0 && u.last() == '\r' {
            u.drop_last()
        } else {
            u
        }
    } else {
        line
    };
    match usize_of(t) {
        Some(v) => if 1 <= v <= 7 {
            Some((v - 1) as usize)
        } else {
            None
        },
        None => None,
    }
}

/// The column that a typed line names, as `column_of_line` describes.
pub fn parse_column(line: &str) -> (r: Option<usize>)
    ensures
        r == column_of_line(line@),
{
    let n = line.unicode_len();
    let mut end = n;
    if end > 0 && line.get_char(end - 1) == '\n' {
        end = end - 1;
        if end > 0 && line.get_char(end - 1) == '\r' {
            end = end - 1;
        }
    }
    let t = line.substring_char(0, end);
    proof {
        if n > 0 && line@.last() == '\n' {
            let u = line@.drop_last();
            if u.len() > 0 && u.last() == '\r' {
                assert(t@ =~= u.drop_last());
            } else {
                assert(t@ =~= u);
            }
        } else {
            assert(t@ =~= line@);
        }
    }
    match parse_usize(t) {
        Some(v) => if 1 <= v && v <= 7 {
            Some(v - 1)
        } else {
            None
        },
        None => None,
    }
}

/// The character of the decimal digit `d`.
pub open spec fn digit_char(d: int) -> char {
    if d == 0 {
        '0'
    } else if d == 1 {
        '1'
    } else if d == 2 {
        '2'
    } else if d == 3 {
        '3'
    } else if d == 4 {
        '4'
    } else if d == 5 {
        '5'
    } else if d == 6 {
        '6'
    } else if d == 7 {
        '7'
    } else if d == 8 {
        '8'
    } else {
        '9'
    }
}

/// `n` written in decimal, without sign or leading zeros.
pub open spec fn decimal(n: nat) -> Seq<char>
    decreases n,
{
    if n < 10 {
        seq![digit_char(n as int)]
    } else {
        decimal(n / 10).push(digit_char((n % 10) as int))
    }
}

/// The name of the checkpoint of generation `g` under the path `prefix`.
pub open spec fn checkpoint_path(prefix: Seq<char>, g: nat) -> Seq<char> {
    prefix + seq!['_'] + decimal(g)
}

/// Relies on the standard library's `ToString` for `usize` (through its
/// `Display`): the number written in decimal, without sign or leading zeros.
#[verifier::external_body]
fn decimal_string(n: usize) -> (r: String)
    ensures
        r@ == decimal(n as nat),
{
    n.to_string()
}

/// The file name of the checkpoint of `generation`: `prefix`, `_`, then the
/// generation in decimal.
pub fn checkpoint_name(prefix: &str, generation: usize) -> (r: String)
    ensures
        r@ == checkpoint_path(prefix@, generation as nat),
{
    let mut r = String::from_str(prefix);
    r.append("_");
    let digits = decimal_string(generation);
    r.append(digits.as_str());
    proof {
        reveal_strlit("_");
    }
    assert(r@ =~= checkpoint_path(prefix@, generation as nat));
    r
}

/// `digit_char` gives a digit worth `d`.
proof fn lemma_digit_char(d: int)
    requires
        0 <= d < 10,
    ensures
        is_digit(digit_char(d)),
        digit_value(digit_char(d)) == d,
{
}

/// The decimal form of `n` is a nonempty string of digits worth `n`.
proof fn lemma_decimal(n: nat)
    ensures
        decimal(n).len() > 0,
        forall|i: int| 0 <= i < decimal(n).len() ==> is_digit(#[trigger] decimal(n)[i]),
        digits_value(decimal(n)) == n,
    decreases n,
{
    if n < 10 {
        lemma_digit_char(n as int);
        assert(decimal(n).drop_last() =~= Seq::<char>::empty());
        assert(digits_value(Seq::<char>::empty()) == 0);
        assert(digits_value(decimal(n)) == digits_value(decimal(n).drop_last()) * 10 + digit_value(decimal(n).last()));
    } else {
        lemma_digit_char((n % 10) as int);
        lemma_decimal(n / 10);
        assert((n / 10) * 10 + n % 10 == n);
        let d = decimal(n);
        assert(d.drop_last() =~= decimal(n / 10));
        assert(d.last() == digit_char((n % 10) as int));
        assert(digits_value(d) == digits_value(d.drop_last()) * 10 + digit_value(d.last()));
        assert forall|i: int| 0 <= i < d.len() implies is_digit(#[trigger] d[i]) by {
            if i < d.len() - 1 {
                assert(d[i] == decimal(n / 10)[i]);
            }
        }
    }
}

/// With no `_` among the characters from `k` on, the last `_` stands before `k`.
proof fn lemma_last_underscore_skip(s: Seq<char>, k: int, m: int)
    requires
        0 <= k <= m <= s.len(),
        forall|i: int| k <= i < m ==> #[trigger] s[i] != '_',
    ensures
        last_underscore(s, m) == last_underscore(s, k),
    decreases m - k,
{
    if m > k {
        lemma_last_underscore_skip(s, k, m - 1);
    }
}

/// The generation read back from a checkpoint's name is the one it was
/// named after, whatever the path prefix.
pub proof fn lemma_checkpoint_round_trip(prefix: Seq<char>, g: usize)
    ensures
        generation_of(checkpoint_path(prefix, g as nat)) == Some(g),
{
    lemma_decimal(g as nat);
    let d = decimal(g as nat);
    let s = checkpoint_path(prefix, g as nat);
    let p = prefix.len() as int;
    assert forall|i: int| p + 1 <= i < s.len() implies #[trigger] s[i] != '_' by {
        assert(s[i] == d[i - p - 1]);
        assert(is_digit(d[i - p - 1]));
    }
    lemma_last_underscore_skip(s, p + 1, s.len() as int);
    assert(s[p] == '_');
    assert(last_underscore(s, p + 1) == p);
    assert(after_last_underscore(s) =~= d);
    assert(is_digit(d[0]));
    assert(unsigned_digits(d) == d);
}

} // verus!
