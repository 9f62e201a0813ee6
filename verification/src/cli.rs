//! What the command line says: seed lists, method lists and method names.
use vstd::prelude::*;

verus! {

/// `c` is an ASCII decimal digit.
pub open spec fn is_digit(c: char) -> bool {
    '0' <= c <= '9'
}

/// The value of a string of decimal digits.
pub open spec fn decimal_value(s: Seq<char>) -> nat
    decreases s.len(),
{
    if s.len() == 0 {
        0
    } else {
        decimal_value(s.drop_last()) * 10 + ((s.last() as u32) - ('0' as u32)) as nat
    }
}

/// `s` without one leading `+`, if it has one.
pub open spec fn without_plus(s: Seq<char>) -> Seq<char> {
    if s.len() > 0 && s[0] == '+' {
        s.drop_first()
    } else {
        s
    }
}

/// Every character of `t` is a decimal digit.
pub open spec fn all_digits(t: Seq<char>) -> bool {
    forall|i: int| 0 <= i < t.len() ==> is_digit(#[trigger] t[i])
}

/// What parsing `s` as a `u64` gives: an optional `+` sign followed by one
/// or more decimal digits whose value fits in a `u64`; nothing else is
/// accepted (no other sign, no spaces).
pub open spec fn parse_u64_spec(s: Seq<char>) -> Option<u64> {
    let t = without_plus(s);
    if t.len() > 0 && all_digits(t) && decimal_value(t) <= u64::MAX {
        Some(decimal_value(t) as u64)
    } else {
        None
    }
}

/// The position of the first `c` in `s`, if any.
pub open spec fn first_index_of(s: Seq<char>, c: char) -> Option<int>
    decreases s.len(),
{
    if s.len() == 0 {
        None
    } else {
        match first_index_of(s.drop_last(), c) {
            Some(i) => Some(i),
            None => if s.last() == c {
                Some(s.len() - 1)
            } else {
                None
            },
        }
    }
}

/// The seeds `start, start + 1, ..., end` (none when `start > end`).
pub open spec fn seed_range(start: u64, end: u64) -> Seq<u64> {
    Seq::new(
        if start <= end {
            (end - start + 1) as nat
        } else {
            0
        },
        |i: int| (start + i) as u64,
    )
}

/// Why a seed argument does not parse. Each variant is a case in which the
/// program stops on a bad seed argument; the caller reports it and exits.
#[derive(Debug, Clone, Copy, PartialEq, Eq)]
pub enum SeedError {
    /// The part before the first `-` is not a seed.
    InvalidStart,
    /// The part after the first `-` is not a seed.
    InvalidEnd,
    /// An argument without `-` is not a seed.
    InvalidSeed,
}

/// What a seed argument means: `"a-b"` (split at the first `-`) is the
/// range from `a` to `b` inclusive, anything else a single seed.
pub open spec fn seeds_spec(s: Seq<char>) -> Result<Seq<u64>, SeedError> {
    match first_index_of(s, '-') {
        Some(i) => match parse_u64_spec(s.take(i)) {
            None => Err(SeedError::InvalidStart),
            Some(a) => match parse_u64_spec(s.skip(i + 1)) {
                None => Err(SeedError::InvalidEnd),
                Some(b) => Ok(seed_range(a, b)),
            },
        },
        None => match parse_u64_spec(s) {
            Some(v) => Ok(seq![v]),
            None => Err(SeedError::InvalidSeed),
        },
    }
}

/// The characters `from..to` of `s`, parsed as a `u64`.
fn parse_u64_range(s: &str, from: usize, to: usize) -> (r: Option<u64>)
    requires
        from <= to <= s@.len(),
    ensures
        r == parse_u64_spec(s@.subrange(from as int, to as int)),
{
    let ghost whole = s@.subrange(from as int, to as int);
    let mut i = from;
    if i < to && s.get_char(i) == '+' {
        i += 1;
    }
    let ghost t = s@.subrange(i as int, to as int);
    assert(t =~= without_plus(whole));
    if i == to {
        return None;
    }
    let start = i;
    let mut value: u64 = 0;
    while i < to
        invariant
            start <= i <= to <= s@.len(),
            start < to,
            t == s@.subrange(start as int, to as int),
            whole == s@.subrange(from as int, to as int),
            t == without_plus(whole),
            forall|k: int| start <= k < i ==> is_digit(#[trigger] s@[k]),
            value as nat == decimal_value(s@.subrange(start as int, i as int)),
        decreases to - i,
    {
        let c = s.get_char(i);
        if c < '0' || c > '9' {
            assert(t[i - start] == c);
            assert(!is_digit(t[i - start]));
            return None;
        }
        let d = ((c as u32) - ('0' as u32)) as u64;
        assert(s@.subrange(start as int, i + 1).drop_last() =~= s@.subrange(start as int, i as int));
        assert(decimal_value(s@.subrange(start as int, i + 1)) == value * 10 + d);
        match value.checked_mul(10) {
            Some(v10) => match v10.checked_add(d) {
                Some(v) => {
                    value = v;
                },
                None => {
                    proof {
                        if all_digits(t) {
                            lemma_decimal_value_prefix_le(t, i + 1 - start);
                            assert(t.take(i + 1 - start) =~= s@.subrange(start as int, i + 1));
                        }
                    }
                    return None;
                },
            },
            None => {
                proof {
                    if all_digits(t) {
                        lemma_decimal_value_prefix_le(t, i + 1 - start);
                        assert(t.take(i + 1 - start) =~= s@.subrange(start as int, i + 1));
                    }
                }
                return None;
            },
        }
        i += 1;
    }
    assert(s@.subrange(start as int, to as int) =~= t);
    Some(value)
}

/// Reading more digits never makes a smaller number.
proof fn lemma_decimal_value_prefix_le(t: Seq<char>, m: int)
    requires
        0 <= m <= t.len(),
        all_digits(t),
    ensures
        decimal_value(t.take(m)) <= decimal_value(t),
    decreases t.len(),
{
    if m < t.len() {
        lemma_decimal_value_prefix_le(t.drop_last(), m);
        assert(t.drop_last().take(m) =~= t.take(m));
    } else {
        assert(t.take(m) =~= t);
    }
}


proof fn lemma_first_index_of(s: Seq<char>, c: char)
    ensures
        match first_index_of(s, c) {
            Some(i) => 0 <= i < s.len() && s[i] == c && forall|k: int| 0 <= k < i ==> s[k] != c,
            None => forall|k: int| 0 <= k < s.len() ==> s[k] != c,
        },
    decreases s.len(),
{
    if s.len() > 0 {
        lemma_first_index_of(s.drop_last(), c);
        assert forall|k: int| 0 <= k < s.len() - 1 implies s[k] == s.drop_last()[k] by {}
    }
}

/// The seeds `start..=end`.
fn seed_range_vec(start: u64, end: u64) -> (v: Vec<u64>)
    ensures
        v@ == seed_range(start, end),
{
    let mut v: Vec<u64> = Vec::new();
    if start > end {
        assert(v@ =~= seed_range(start, end));
        return v;
    }
    let mut x = start;
    loop
        invariant_except_break
            v@ =~= seed_range(start, x).take(x - start),
        invariant
            start <= x <= end,
        ensures
            v@ =~= seed_range(start, end),
        decreases end - x,
    {
        v.push(x);
        if x == end {
            assert(v@ =~= seed_range(start, end));
            break;
        }
        assert(v@ =~= seed_range(start, (x + 1) as u64).take(x + 1 - start));
        x += 1;
    }
    v
}

/// Reads a seed argument: `"a-b"`, split at the first `-`, is the range of
/// seeds from `a` to `b` inclusive (empty when `a > b`); any other argument
/// is a single seed. Each seed is a `u64` in decimal, optionally after a
/// `+`. An argument that does not read this way is an error that stops the
/// program; the error says which part does not parse.
pub fn parse_seeds(s: &str) -> (r: Result<Vec<u64>, SeedError>)
    ensures
        match r {
            Ok(v) => seeds_spec(s@) == Ok::<Seq<u64>, SeedError>(v@),
            Err(e) => seeds_spec(s@) == Err::<Seq<u64>, SeedError>(e),
        },
{
    let n = s.unicode_len();
    let mut i: usize = 0;
    while i < n
        invariant
            n == s@.len(),
            i <= n,
            forall|k: int| 0 <= k < i ==> s@[k] != '-',
        ensures
            i <= n,
            forall|k: int| 0 <= k < i ==> s@[k] != '-',
            i < n ==> s@[i as int] == '-',
        decreases n - i,
    {
        if s.get_char(i) == '-' {
            break;
        }
        i += 1;
    }
    proof {
        lemma_first_index_of(s@, '-');
    }
    if i < n {
        assert(first_index_of(s@, '-') == Some(i as int));
        assert(s@.take(i as int) =~= s@.subrange(0, i as int));
        assert(s@.skip(i + 1) =~= s@.subrange(i + 1, n as int));
        match parse_u64_range(s, 0, i) {
            None => Err(SeedError::InvalidStart),
            Some(a) => match parse_u64_range(s, i + 1, n) {
                None => Err(SeedError::InvalidEnd),
                Some(b) => Ok(seed_range_vec(a, b)),
            },
        }
    } else {
        assert(first_index_of(s@, '-') is None);
        assert(s@.subrange(0, n as int) =~= s@);
        match parse_u64_range(s, 0, n) {
            Some(v) => {
                let mut out: Vec<u64> = Vec::new();
                out.push(v);
                assert(out@ =~= seq![v]);
                Ok(out)
            },
            None => Err(SeedError::InvalidSeed),
        }
    }
}


/// Whether `a` and `b` hold the same characters.
pub fn str_equals(a: &str, b: &str) -> (eq: bool)
    ensures
        eq == (a@ == b@),
{
    let n = a.unicode_len();
    if n != b.unicode_len() {
        return false;
    }
    let mut i: usize = 0;
    while i < n
        invariant
            n == a@.len(),
            n == b@.len(),
            i <= n,
            forall|k: int| 0 <= k < i ==> a@[k] == b@[k],
        decreases n - i,
    {
        if a.get_char(i) != b.get_char(i) {
            return false;
        }
        i += 1;
    }
    assert(a@ =~= b@);
    true
}

/// The solver variants that the command line can name.
#[derive(Debug, Clone, Copy, PartialEq, Eq)]
pub enum Method {
    M0Rust,
    M1,
    M2,
    M3,
    M4,
    M5,
    M6,
    M7,
}

/// The method that `name` names, if any: `m0rust`, `m1`, ..., `m7`.
pub open spec fn method_spec(name: Seq<char>) -> Option<Method> {
    if name == "m0rust"@ {
        Some(Method::M0Rust)
    } else if name == "m1"@ {
        Some(Method::M1)
    } else if name == "m2"@ {
        Some(Method::M2)
    } else if name == "m3"@ {
        Some(Method::M3)
    } else if name == "m4"@ {
        Some(Method::M4)
    } else if name == "m5"@ {
        Some(Method::M5)
    } else if name == "m6"@ {
        Some(Method::M6)
    } else if name == "m7"@ {
        Some(Method::M7)
    } else {
        None
    }
}

/// The method that `name` names, or `None` for an unknown name.
pub fn method_from_name(name: &str) -> (m: Option<Method>)
    ensures
        m == method_spec(name@),
{
    if str_equals(name, "m0rust") {
        Some(Method::M0Rust)
    } else if str_equals(name, "m1") {
        Some(Method::M1)
    } else if str_equals(name, "m2") {
        Some(Method::M2)
    } else if str_equals(name, "m3") {
        Some(Method::M3)
    } else if str_equals(name, "m4") {
        Some(Method::M4)
    } else if str_equals(name, "m5") {
        Some(Method::M5)
    } else if str_equals(name, "m6") {
        Some(Method::M6)
    } else if str_equals(name, "m7") {
        Some(Method::M7)
    } else {
        None
    }
}

/// Whether the method named `method` uses no random seed (`m6` and `m7`),
/// so that it is run once whatever the seeds.
pub fn is_deterministic(method: &str) -> (b: bool)
    ensures
        b == (method@ == "m6"@ || method@ == "m7"@),
{
    str_equals(method, "m6") || str_equals(method, "m7")
}

/// `c` has the Unicode White_Space property.
pub open spec fn is_white_space(c: char) -> bool {
    ||| '\u{9}' <= c <= '\u{d}'
    ||| c == ' '
    ||| c == '\u{85}'
    ||| c == '\u{a0}'
    ||| c == '\u{1680}'
    ||| '\u{2000}' <= c <= '\u{200a}'
    ||| c == '\u{2028}'
    ||| c == '\u{2029}'
    ||| c == '\u{202f}'
    ||| c == '\u{205f}'
    ||| c == '\u{3000}'
}

/// `s` without its leading white space.
pub open spec fn trim_start_spec(s: Seq<char>) -> Seq<char>
    decreases s.len(),
{
    if s.len() > 0 && is_white_space(s[0]) {
        trim_start_spec(s.drop_first())
    } else {
        s
    }
}

/// `s` without its trailing white space.
pub open spec fn trim_end_spec(s: Seq<char>) -> Seq<char>
    decreases s.len(),
{
    if s.len() > 0 && is_white_space(s.last()) {
        trim_end_spec(s.drop_last())
    } else {
        s
    }
}

/// `s` without leading and trailing white space.
pub open spec fn trim_spec(s: Seq<char>) -> Seq<char> {
    trim_end_spec(trim_start_spec(s))
}

/// Whether `c` has the Unicode White_Space property.
fn is_white_space_char(c: char) -> (b: bool)
    ensures
        b == is_white_space(c),
{
    ('\u{9}' <= c && c <= '\u{d}') || c == ' ' || c == '\u{85}' || c == '\u{a0}' || c == '\u{1680}'
        || ('\u{2000}' <= c && c <= '\u{200a}') || c == '\u{2028}' || c == '\u{2029}' || c
        == '\u{202f}' || c == '\u{205f}' || c == '\u{3000}'
}

/// The slice of `s` without leading and trailing white space, as
/// `str::trim` gives it.
fn trim_white_space<'a>(s: &'a str) -> (t: &'a str)
    ensures
        t@ == trim_spec(s@),
{
    let n = s.unicode_len();
    let mut i: usize = 0;
    assert(s@.skip(0) =~= s@);
    while i < n
        invariant
            n == s@.len(),
            i <= n,
            trim_start_spec(s@) == trim_start_spec(s@.skip(i as int)),
        ensures
            i <= n,
            i == n || !is_white_space(s@[i as int]),
            trim_start_spec(s@) == trim_start_spec(s@.skip(i as int)),
        decreases n - i,
    {
        if !is_white_space_char(s.get_char(i)) {
            break;
        }
        assert(s@.skip(i as int).drop_first() =~= s@.skip(i + 1));
        i += 1;
    }
    if i == n {
        assert(s@.skip(i as int) =~= Seq::<char>::empty());
    }
    assert(trim_start_spec(s@) == s@.subrange(i as int, n as int)) by {
        assert(s@.skip(i as int) =~= s@.subrange(i as int, n as int));
        if i < n {
            assert(s@.skip(i as int)[0] == s@[i as int]);
        }
    }
    let mut j: usize = n;
    while j > i
        invariant
            n == s@.len(),
            i <= j <= n,
            trim_spec(s@) == trim_end_spec(s@.subrange(i as int, j as int)),
        ensures
            i <= j <= n,
            j == i || !is_white_space(s@[j - 1]),
            trim_spec(s@) == trim_end_spec(s@.subrange(i as int, j as int)),
        decreases j,
    {
        if !is_white_space_char(s.get_char(j - 1)) {
            break;
        }
        assert(s@.subrange(i as int, j as int).drop_last() =~= s@.subrange(i as int, j - 1));
        j -= 1;
    }
    if j == i {
        assert(s@.subrange(i as int, j as int) =~= Seq::<char>::empty());
    } else {
        assert(s@.subrange(i as int, j as int).last() == s@[j - 1]);
    }
    s.substring_char(i, j)
}

/// What `str::to_lowercase` makes of a string: Unicode lowercase mapping,
/// character by character with the context rule for final sigma.
pub uninterp spec fn lowercase(s: Seq<char>) -> Seq<char>;

/// Calls `str::to_lowercase`; its result is named `lowercase` and nothing
/// more is stated of it.
#[verifier::external_body]
fn to_lowercase_string(s: &str) -> (r: String)
    ensures
        r@ == lowercase(s@),
{
    s.to_lowercase()
}

/// The pieces of `s` between occurrences of `sep`, as `str::split` gives
/// them (an empty string is one empty piece).
pub open spec fn split_on(s: Seq<char>, sep: char) -> Seq<Seq<char>>
    decreases s.len(),
{
    if s.len() == 0 {
        seq![Seq::empty()]
    } else {
        let p = split_on(s.drop_last(), sep);
        if s.last() == sep {
            p.push(Seq::empty())
        } else {
            p.update(p.len() - 1, p.last().push(s.last()))
        }
    }
}

/// The method names that a method argument lists: `"all"` lists all eight,
/// anything else is split at commas and each piece trimmed and lowercased.
pub open spec fn method_names_spec(s: Seq<char>) -> Seq<Seq<char>> {
    if s == "all"@ {
        seq!["m0rust"@, "m1"@, "m2"@, "m3"@, "m4"@, "m5"@, "m6"@, "m7"@]
    } else {
        split_on(s, ',').map_values(|p: Seq<char>| lowercase(trim_spec(p)))
    }
}

/// The contents of a list of strings.
pub open spec fn strings_view(v: Seq<String>) -> Seq<Seq<char>> {
    v.map_values(|x: String| x@)
}

/// The method names that the method argument `s` lists.
pub fn methods_from_str(s: &str) -> (names: Vec<String>)
    ensures
        strings_view(names@) == method_names_spec(s@),
{
    if str_equals(s, "all") {
        let mut names: Vec<String> = Vec::new();
        names.push(String::from_str("m0rust"));
        names.push(String::from_str("m1"));
        names.push(String::from_str("m2"));
        names.push(String::from_str("m3"));
        names.push(String::from_str("m4"));
        names.push(String::from_str("m5"));
        names.push(String::from_str("m6"));
        names.push(String::from_str("m7"));
        assert(strings_view(names@) =~= method_names_spec(s@));
        return names;
    }
    let n = s.unicode_len();
    let mut names: Vec<String> = Vec::new();
    let ghost mut done: Seq<Seq<char>> = Seq::empty();
    let mut start: usize = 0;
    let mut i: usize = 0;
    assert(s@.take(0) =~= Seq::<char>::empty());
    assert(s@.subrange(0, 0) =~= Seq::<char>::empty());
    assert(split_on(s@.take(0), ',') =~= done.push(s@.subrange(0, 0)));
    assert(strings_view(names@) =~= done.map_values(|p: Seq<char>| lowercase(trim_spec(p))));
    while i < n
        invariant
            n == s@.len(),
            start <= i <= n,
            split_on(s@.take(i as int), ',') == done.push(s@.subrange(start as int, i as int)),
            strings_view(names@) == done.map_values(|p: Seq<char>| lowercase(trim_spec(p))),
        decreases n - i,
    {
        let c = s.get_char(i);
        assert(s@.take(i + 1).drop_last() =~= s@.take(i as int));
        assert(s@.take(i + 1).last() == c);
        if c == ',' {
            let piece = s.substring_char(start, i);
            let trimmed = trim_white_space(piece);
            let lower = to_lowercase_string(trimmed);
            let ghost prev_names = names@;
            names.push(lower);
            proof {
                let old_done = done;
                done = done.push(s@.subrange(start as int, i as int));
                assert(strings_view(names@) =~= strings_view(prev_names).push(lower@));
                assert(done.map_values(|p: Seq<char>| lowercase(trim_spec(p))) =~= old_done.map_values(
                    |p: Seq<char>| lowercase(trim_spec(p)),
                ).push(lowercase(trim_spec(s@.subrange(start as int, i as int)))));
                assert(strings_view(names@) =~= done.map_values(
                    |p: Seq<char>| lowercase(trim_spec(p)),
                ));
                assert(s@.subrange(i + 1, i + 1) =~= Seq::<char>::empty());
            }
            start = i + 1;
        } else {
            assert(s@.subrange(start as int, i + 1) =~= s@.subrange(start as int, i as int).push(c));
        }
        i += 1;
        assert(split_on(s@.take(i as int), ',') =~= done.push(s@.subrange(start as int, i as int)));
    }
    let piece = s.substring_char(start, n);
    let trimmed = trim_white_space(piece);
    let lower = to_lowercase_string(trimmed);
    let ghost prev_names = names@;
    names.push(lower);
    proof {
        assert(s@.take(n as int) =~= s@);
        let all = done.push(s@.subrange(start as int, n as int));
        assert(strings_view(names@) =~= strings_view(prev_names).push(lower@));
        assert(all.map_values(|p: Seq<char>| lowercase(trim_spec(p))) =~= done.map_values(
            |p: Seq<char>| lowercase(trim_spec(p)),
        ).push(lowercase(trim_spec(s@.subrange(start as int, n as int)))));
        assert(strings_view(names@) =~= all.map_values(|p: Seq<char>| lowercase(trim_spec(p))));
    }
    names
}

} // verus!
