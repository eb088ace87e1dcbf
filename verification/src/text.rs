//! Character-level text operations shared by the parsers and the protocol code.
//!
//! Strings are modelled by the sequence of their characters. Every operation is
//! stated over that sequence.
use vstd::prelude::*;
use vstd::utf8::*;

verus! {

/// `String::push` appends one character.
pub assume_specification[ String::push ](s: &mut String, ch: char)
    ensures
        final(s)@ == old(s)@.push(ch),
;

/// The characters of `s`.
pub fn chars_of(s: &str) -> (r: Vec<char>)
    ensures
        r@ == s@,
{
    let mut r: Vec<char> = Vec::new();
    for c in it: s.chars()
        invariant
            it.seq() == s@,
            r@ == s@.take(it.index()),
    {
        r.push(c);
    }
    assert(s@.take(s@.len() as int) == s@);
    r
}

/// The string with the characters `cs`.
pub fn string_of(cs: &[char]) -> (r: String)
    ensures
        r@ == cs@,
{
    let mut r = String::new();
    for i in 0..cs.len()
        invariant
            r@ == cs@.take(i as int),
    {
        r.push(cs[i]);
    }
    assert(cs@.take(cs@.len() as int) == cs@);
    r
}

/// Whether two texts hold the same characters.
pub fn same_text(a: &str, b: &str) -> (r: bool)
    ensures
        r == (a@ == b@),
{
    a.to_owned() == b.to_owned()
}


/// Characters with the Unicode `White_Space` property.
pub open spec fn is_white(c: char) -> bool {
    let n = c as u32;
    ||| 0x09 <= n <= 0x0d
    ||| n == 0x20 || n == 0x85 || n == 0xa0 || n == 0x1680
    ||| 0x2000 <= n <= 0x200a
    ||| n == 0x2028 || n == 0x2029 || n == 0x202f || n == 0x205f || n == 0x3000
}

/// `char::is_whitespace` tells whether a character has the `White_Space` property.
pub assume_specification[ char::is_whitespace ](c: char) -> (r: bool)
    ensures
        r == is_white(c),
;

/// `s` without its leading whitespace.
pub open spec fn trimmed_start(s: Seq<char>) -> Seq<char>
    decreases s.len(),
{
    if s.len() > 0 && is_white(s[0]) {
        trimmed_start(s.skip(1))
    } else {
        s
    }
}

/// `s` without its trailing whitespace.
pub open spec fn trimmed_end(s: Seq<char>) -> Seq<char>
    decreases s.len(),
{
    if s.len() > 0 && is_white(s.last()) {
        trimmed_end(s.drop_last())
    } else {
        s
    }
}

/// `s` without the whitespace on either side.
pub open spec fn trimmed(s: Seq<char>) -> Seq<char> {
    trimmed_end(trimmed_start(s))
}

proof fn lemma_trimmed_start(s: Seq<char>)
    ensures
        trimmed_start(s).len() > 0 ==> !is_white(trimmed_start(s)[0]),
    decreases s.len(),
{
    if s.len() > 0 && is_white(s[0]) {
        lemma_trimmed_start(s.skip(1));
    }
}

proof fn lemma_trimmed_end(s: Seq<char>)
    ensures
        trimmed_end(s).len() <= s.len(),
        trimmed_end(s) == s.take(trimmed_end(s).len() as int),
        trimmed_end(s).len() > 0 ==> !is_white(trimmed_end(s).last()),
    decreases s.len(),
{
    if s.len() > 0 && is_white(s.last()) {
        lemma_trimmed_end(s.drop_last());
        let n = trimmed_end(s).len() as int;
        assert(s.drop_last().take(n) =~= s.take(n));
    } else {
        assert(s.take(s.len() as int) =~= s);
    }
}

/// What is left of a text without white space on either side starts and ends with something
/// visible.
pub proof fn trimmed_ends_are_visible(s: Seq<char>)
    ensures
        trimmed(s).len() > 0 ==> !is_white(trimmed(s)[0]) && !is_white(trimmed(s).last()),
{
    lemma_trimmed_start(s);
    lemma_trimmed_end(trimmed_start(s));
}

/// `s` without the run of `c` at its end.
pub open spec fn without_trailing(s: Seq<char>, c: char) -> Seq<char>
    decreases s.len(),
{
    if s.len() > 0 && s.last() == c {
        without_trailing(s.drop_last(), c)
    } else {
        s
    }
}

/// Drops leading whitespace.
pub fn trim_start(s: &[char]) -> (r: &[char])
    ensures
        r@ == trimmed_start(s@),
{
    let mut i: usize = 0;
    assert(s@.skip(0) == s@);
    while i < s.len() && s[i].is_whitespace()
        invariant
            i <= s.len(),
            trimmed_start(s@.skip(i as int)) == trimmed_start(s@),
        decreases s.len() - i,
    {
        assert(s@.skip(i as int).skip(1) == s@.skip(i + 1));
        i += 1;
    }
    vstd::slice::slice_subrange(s, i, s.len())
}

/// Drops trailing whitespace.
pub fn trim_end(s: &[char]) -> (r: &[char])
    ensures
        r@ == trimmed_end(s@),
{
    let mut n: usize = s.len();
    assert(s@.take(n as int) == s@);
    while n > 0 && s[n - 1].is_whitespace()
        invariant
            n <= s.len(),
            trimmed_end(s@.take(n as int)) == trimmed_end(s@),
        decreases n,
    {
        assert(s@.take(n as int).drop_last() == s@.take(n - 1));
        n -= 1;
    }
    vstd::slice::slice_subrange(s, 0, n)
}

/// Drops the whitespace on either side.
pub fn trim(s: &[char]) -> (r: &[char])
    ensures
        r@ == trimmed(s@),
{
    trim_end(trim_start(s))
}

/// Drops every `c` at the end.
pub fn trim_end_of(s: &[char], c: char) -> (r: &[char])
    ensures
        r@ == without_trailing(s@, c),
{
    let mut n: usize = s.len();
    assert(s@.take(n as int) == s@);
    while n > 0 && s[n - 1] == c
        invariant
            n <= s.len(),
            without_trailing(s@.take(n as int), c) == without_trailing(s@, c),
        decreases n,
    {
        assert(s@.take(n as int).drop_last() == s@.take(n - 1));
        n -= 1;
    }
    vstd::slice::slice_subrange(s, 0, n)
}

/// The maximal runs of non-whitespace in `s`, in order.
pub open spec fn words(s: Seq<char>) -> Seq<Seq<char>>
    decreases s.len(),
{
    if s.len() == 0 {
        Seq::empty()
    } else {
        let c = s.last();
        let before = s.drop_last();
        if is_white(c) {
            words(before)
        } else if before.len() == 0 || is_white(before.last()) {
            words(before).push(seq![c])
        } else {
            words(before).drop_last().push(words(before).last().push(c))
        }
    }
}

/// The texts of a list of texts.
pub open spec fn texts(v: Seq<Vec<char>>) -> Seq<Seq<char>> {
    v.map_values(|w: Vec<char>| w@)
}

/// Splits at runs of whitespace; no piece is empty.
pub fn split_whitespace(s: &[char]) -> (r: Vec<Vec<char>>)
    ensures
        texts(r@) == words(s@),
{
    let mut done: Vec<Vec<char>> = Vec::new();
    let mut open: Vec<char> = Vec::new();
    let mut in_word = false;
    let mut i: usize = 0;
    while i < s.len()
        invariant
            i <= s.len(),
            in_word == (i > 0 && !is_white(s@[i - 1])),
            in_word ==> texts(done@).push(open@) == words(s@.take(i as int)),
            !in_word ==> texts(done@) == words(s@.take(i as int)) && open@.len() == 0,
        decreases s.len() - i,
    {
        let c = s[i];
        let ghost sofar = s@.take(i as int);
        assert(s@.take(i + 1).drop_last() == sofar);
        assert(s@.take(i + 1).last() == c);
        if c.is_whitespace() {
            if in_word {
                let ghost before = done@;
                let ghost last = open@;
                done.push(open);
                open = Vec::new();
                assert(texts(done@) == texts(before).push(last));
                in_word = false;
            }
        } else {
            if in_word {
                assert(sofar.last() == s@[i - 1]);
                assert(words(sofar).drop_last() == texts(done@));
                assert(words(sofar).last() == open@);
            } else {
                assert(sofar.len() > 0 ==> sofar.last() == s@[i - 1]);
                assert(open@.push(c) == seq![c]);
            }
            open.push(c);
            in_word = true;
        }
        i += 1;
    }
    assert(s@.take(s@.len() as int) == s@);
    if in_word {
        let ghost before = done@;
        let ghost last = open@;
        done.push(open);
        assert(texts(done@) == texts(before).push(last));
    }
    done
}

/// The pieces of `s` between occurrences of `sep`; there is always at least one.
pub open spec fn fields(s: Seq<char>, sep: char) -> Seq<Seq<char>>
    decreases s.len(),
{
    if s.len() == 0 {
        seq![Seq::empty()]
    } else {
        let before = fields(s.drop_last(), sep);
        if s.last() == sep {
            before.push(Seq::empty())
        } else {
            before.drop_last().push(before.last().push(s.last()))
        }
    }
}

/// Splits at every `sep`.
pub fn split_on(s: &[char], sep: char) -> (r: Vec<Vec<char>>)
    ensures
        texts(r@) == fields(s@, sep),
        r@.len() > 0,
{
    let mut done: Vec<Vec<char>> = Vec::new();
    let mut open: Vec<char> = Vec::new();
    let mut i: usize = 0;
    assert(texts(done@).push(open@) =~~= fields(s@.take(0), sep));
    while i < s.len()
        invariant
            i <= s.len(),
            texts(done@).push(open@) == fields(s@.take(i as int), sep),
        decreases s.len() - i,
    {
        let c = s[i];
        assert(s@.take(i + 1).drop_last() == s@.take(i as int));
        assert(s@.take(i + 1).last() == c);
        let ghost sofar = fields(s@.take(i as int), sep);
        assert(sofar.drop_last() == texts(done@));
        assert(sofar.last() == open@);
        if c == sep {
            let ghost before = done@;
            let ghost last = open@;
            done.push(open);
            open = Vec::new();
            assert(texts(done@) == texts(before).push(last));
            assert(open@ == Seq::<char>::empty());
        } else {
            open.push(c);
        }
        i += 1;
    }
    assert(s@.take(s@.len() as int) == s@);
    let ghost before = done@;
    let ghost last = open@;
    done.push(open);
    assert(texts(done@) == texts(before).push(last));
    done
}

/// The texts in `parts` with `sep` between neighbours.
pub open spec fn joined(parts: Seq<Seq<char>>, sep: Seq<char>) -> Seq<char>
    decreases parts.len(),
{
    if parts.len() == 0 {
        Seq::empty()
    } else if parts.len() == 1 {
        parts[0]
    } else {
        joined(parts.drop_last(), sep) + sep + parts.last()
    }
}

/// The texts of a list of strings.
pub open spec fn strings(v: Seq<String>) -> Seq<Seq<char>> {
    v.map_values(|w: String| w@)
}

/// Joins `parts` with `sep` between neighbours.
pub fn join(parts: &Vec<String>, sep: &str) -> (r: String)
    ensures
        r@ == joined(strings(parts@), sep@),
{
    let mut r = String::new();
    let mut i: usize = 0;
    while i < parts.len()
        invariant
            i <= parts.len(),
            r@ == joined(strings(parts@).take(i as int), sep@),
        decreases parts.len() - i,
    {
        let ghost next = strings(parts@).take(i + 1);
        assert(next.drop_last() == strings(parts@).take(i as int));
        assert(next.last() == parts@[i as int]@);
        if i > 0 {
            r.append(sep);
            r.append(parts[i].as_str());
        } else {
            r.append(parts[i].as_str());
            assert(r@ == parts@[0]@);
        }
        i += 1;
    }
    assert(strings(parts@).take(parts@.len() as int) == strings(parts@));
    r
}

/// Whether `p` stands in `s` at offset `at`.
pub open spec fn occurs_at<A>(s: Seq<A>, p: Seq<A>, at: int) -> bool {
    0 <= at && at + p.len() <= s.len() && s.subrange(at, at + p.len()) == p
}

/// Whether `s` begins with `p`.
pub open spec fn has_prefix<A>(s: Seq<A>, p: Seq<A>) -> bool {
    occurs_at(s, p, 0)
}

/// Whether `s` ends with `p`.
pub open spec fn has_suffix<A>(s: Seq<A>, p: Seq<A>) -> bool {
    occurs_at(s, p, s.len() - p.len())
}

/// Whether `p` stands somewhere in `s`.
pub open spec fn has_infix<A>(s: Seq<A>, p: Seq<A>) -> bool {
    exists|at: int| occurs_at(s, p, at)
}

/// Whether `p` stands in `s` at `at`.
pub fn matches_at(s: &[char], p: &[char], at: usize) -> (r: bool)
    ensures
        r == occurs_at(s@, p@, at as int),
{
    if p.len() > s.len() || at > s.len() - p.len() {
        return false;
    }
    let mut i: usize = 0;
    while i < p.len()
        invariant
            i <= p.len(),
            at + p.len() <= s.len(),
            forall|j: int| 0 <= j < i ==> s@[at + j] == p@[j],
        decreases p.len() - i,
    {
        if s[at + i] != p[i] {
            assert(s@.subrange(at as int, at + p@.len())[i as int] != p@[i as int]);
            return false;
        }
        i += 1;
    }
    assert(s@.subrange(at as int, at + p@.len()) == p@);
    true
}

/// Whether `s` begins with `p`.
pub fn starts_with(s: &[char], p: &str) -> (r: bool)
    ensures
        r == has_prefix(s@, p@),
{
    let p = chars_of(p);
    matches_at(s, &p, 0)
}

/// Whether `s` ends with `p`.
pub fn ends_with(s: &[char], p: &str) -> (r: bool)
    ensures
        r == has_suffix(s@, p@),
{
    let p = chars_of(p);
    if p.len() > s.len() {
        return false;
    }
    matches_at(s, &p, s.len() - p.len())
}

/// Whether `p` stands somewhere in `s`.
pub fn contains(s: &[char], p: &str) -> (r: bool)
    ensures
        r == has_infix(s@, p@),
{
    let q = chars_of(p);
    if q.len() == 0 {
        assert(s@.subrange(0, 0) == p@);
        assert(occurs_at(s@, p@, 0));
        return true;
    }
    if q.len() > s.len() {
        return false;
    }
    let mut i: usize = 0;
    while i <= s.len() - q.len()
        invariant
            q@ == p@,
            0 < q.len() <= s.len(),
            i <= s.len() - q.len() + 1,
            forall|j: int| 0 <= j < i ==> !occurs_at(s@, p@, j),
        decreases s.len() + 1 - i,
    {
        if matches_at(s, &q, i) {
            return true;
        }
        i += 1;
    }
    false
}

/// The decimal digit of a number below ten.
pub open spec fn digit(n: nat) -> char {
    (48 + n) as char
}

/// Whether `c` is one of `0` to `9`.
pub open spec fn is_digit(c: char) -> bool {
    48 <= c as u32 <= 57
}

/// Whether every character of `s` is one of `0` to `9`.
pub open spec fn all_digits(s: Seq<char>) -> bool {
    forall|i: int| 0 <= i < s.len() ==> is_digit(#[trigger] s[i])
}

/// The number that the digits of `s` write.
pub open spec fn digits_value(s: Seq<char>) -> nat
    decreases s.len(),
{
    if s.len() == 0 {
        0
    } else {
        (digits_value(s.drop_last()) * 10 + (s.last() as u32 - 48)) as nat
    }
}

/// The number that a non-empty run of digits writes, if it is at most `max`.
pub open spec fn magnitude(s: Seq<char>, max: nat) -> Option<nat> {
    if s.len() > 0 && all_digits(s) && digits_value(s) <= max {
        Some(digits_value(s))
    } else {
        None
    }
}

/// An unsigned number: an optional `+`, then digits, with a value of at most `max`.
pub open spec fn unsigned(s: Seq<char>, max: nat) -> Option<nat> {
    if s.len() > 0 && s[0] == '+' {
        magnitude(s.skip(1), max)
    } else {
        magnitude(s, max)
    }
}

/// A signed number: an optional `+` or `-`, then digits, between `min` and `max`.
pub open spec fn signed(s: Seq<char>, min: int, max: int) -> Option<int> {
    if s.len() > 0 && s[0] == '-' {
        match magnitude(s.skip(1), (-min) as nat) {
            Some(n) => Some(-(n as int)),
            None => None,
        }
    } else {
        match unsigned(s, max as nat) {
            Some(n) => Some(n as int),
            None => None,
        }
    }
}

proof fn lemma_digits_value_grows(s: Seq<char>, i: int)
    requires
        all_digits(s),
        0 <= i <= s.len(),
    ensures
        digits_value(s.take(i)) <= digits_value(s),
    decreases s.len() - i,
{
    if i < s.len() {
        lemma_digits_value_grows(s, i + 1);
        assert(s.take(i + 1).drop_last() == s.take(i));
        assert(is_digit(s[i]));
    } else {
        assert(s.take(i) == s);
    }
}

/// Reads a run of digits from `from` on.
fn parse_magnitude(s: &[char], from: usize, max: u64) -> (r: Option<u64>)
    requires
        from <= s.len(),
    ensures
        r is Some <==> magnitude(s@.skip(from as int), max as nat) is Some,
        r matches Some(n) ==> magnitude(s@.skip(from as int), max as nat) == Some(n as nat),
{
    let ghost t = s@.skip(from as int);
    if from == s.len() {
        return None;
    }
    let mut n: u64 = 0;
    let mut i: usize = from;
    while i < s.len()
        invariant
            from <= i <= s.len(),
            t == s@.skip(from as int),
            n <= max,
            n == digits_value(t.take(i - from)),
            forall|j: int| 0 <= j < i - from ==> is_digit(#[trigger] t[j]),
        decreases s.len() - i,
    {
        let c = s[i];
        assert(t[i - from] == c);
        assert(t.take(i - from + 1).drop_last() == t.take(i - from));
        let u: u32 = c as u32;
        if u < 48 || u > 57 {
            assert(!is_digit(t[i - from]));
            return None;
        }
        let d: u64 = (u - 48) as u64;
        if n > max / 10 || d > max - n * 10 {
            proof {
                assert(digits_value(t.take(i - from + 1)) > max);
                if all_digits(t) {
                    lemma_digits_value_grows(t, i - from + 1);
                }
            }
            return None;
        }
        n = n * 10 + d;
        i += 1;
    }
    assert(t.take(i - from) == t);
    Some(n)
}

/// Reads an unsigned number of at most `max`.
pub fn parse_unsigned(s: &[char], max: u64) -> (r: Option<u64>)
    ensures
        r is Some <==> unsigned(s@, max as nat) is Some,
        r matches Some(n) ==> unsigned(s@, max as nat) == Some(n as nat),
{
    assert(s@.skip(0) == s@);
    if s.len() > 0 && s[0] == '+' {
        parse_magnitude(s, 1, max)
    } else {
        parse_magnitude(s, 0, max)
    }
}

/// Reads a run of digits with a value of at most `max`.
pub fn parse_digits(s: &[char], max: u64) -> (r: Option<u64>)
    ensures
        r is Some <==> magnitude(s@, max as nat) is Some,
        r matches Some(n) ==> magnitude(s@, max as nat) == Some(n as nat),
{
    assert(s@.skip(0) == s@);
    parse_magnitude(s, 0, max)
}

/// Reads a signed number between `min` and `max`.
pub fn parse_signed(s: &[char], min: i64, max: i64) -> (r: Option<i64>)
    requires
        min < 0 <= max,
    ensures
        r is Some <==> signed(s@, min as int, max as int) is Some,
        r matches Some(n) ==> signed(s@, min as int, max as int) == Some(n as int),
{
    if s.len() > 0 && s[0] == '-' {
        let bound: u64 = (-(min + 1)) as u64 + 1;
        match parse_magnitude(s, 1, bound) {
            Some(n) => if n == 0 {
                Some(0)
            } else {
                Some(-((n - 1) as i64) - 1)
            },
            None => None,
        }
    } else {
        match parse_unsigned(s, max as u64) {
            Some(n) => Some(n as i64),
            None => None,
        }
    }
}

/// `n` in decimal, without leading zeros.
pub open spec fn decimal(n: nat) -> Seq<char>
    decreases n,
{
    if n < 10 {
        seq![digit(n)]
    } else {
        decimal(n / 10).push(digit(n % 10))
    }
}

/// Writes `n` in decimal.
pub fn to_decimal(n: u64) -> (r: String)
    ensures
        r@ == decimal(n as nat),
    decreases n,
{
    let c: char = ((n % 10) as u8 + 48u8) as char;
    assert(c == digit((n % 10) as nat));
    if n < 10 {
        let mut r = String::new();
        r.push(c);
        assert(r@ == seq![c]);
        r
    } else {
        let mut r = to_decimal(n / 10);
        r.push(c);
        r
    }
}

/// `s` with zeros in front, up to `width` characters.
pub open spec fn zero_filled(s: Seq<char>, width: nat) -> Seq<char> {
    if s.len() < width {
        Seq::new((width - s.len()) as nat, |i: int| '0') + s
    } else {
        s
    }
}

/// Writes `n` in decimal with zeros in front, up to `width` characters.
pub fn to_decimal_filled(n: u64, width: usize) -> (r: String)
    ensures
        r@ == zero_filled(decimal(n as nat), width as nat),
{
    let digits = to_decimal(n);
    let len: usize = digits.as_str().unicode_len();
    let mut r = String::new();
    let mut i: usize = len;
    while i < width
        invariant
            len <= i,
            len < width ==> i <= width,
            len >= width ==> i == len,
            r@ == Seq::new((i - len) as nat, |j: int| '0'),
        decreases width - i,
    {
        r.push('0');
        i += 1;
        assert(r@ == Seq::new((i - len) as nat, |j: int| '0'));
    }
    r.append(digits.as_str());
    assert(r@ == zero_filled(decimal(n as nat), width as nat));
    r
}

/// A number that is written in decimal is read back.
pub proof fn decimal_is_read_back(n: nat, max: nat)
    requires
        n <= max,
    ensures
        unsigned(decimal(n), max) == Some(n),
        all_digits(decimal(n)),
        digits_value(decimal(n)) == n,
    decreases n,
{
    let s = decimal(n);
    if n < 10 {
        reveal_with_fuel(digits_value, 2);
        assert(s.drop_last() =~= Seq::empty());
        assert(is_digit(s[0]));
    } else {
        decimal_is_read_back(n / 10, max);
        assert(s.drop_last() =~= decimal(n / 10));
        assert(is_digit(s.last()));
        assert forall|i: int| 0 <= i < s.len() implies is_digit(#[trigger] s[i]) by {
            if i < s.len() - 1 {
                assert(s[i] == decimal(n / 10)[i]);
            }
        }
    }
    assert(is_digit(s[0]));
    assert(s[0] != '+');
}

proof fn lemma_leading_zero(s: Seq<char>)
    ensures
        digits_value(seq!['0'] + s) == digits_value(s),
    decreases s.len(),
{
    let t = seq!['0'] + s;
    if s.len() == 0 {
        reveal_with_fuel(digits_value, 2);
        assert(t.drop_last() =~= Seq::empty());
    } else {
        lemma_leading_zero(s.drop_last());
        assert(t.drop_last() =~= seq!['0'] + s.drop_last());
        assert(t.last() == s.last());
    }
}

/// Zeros in front leave the value of a number as it is.
pub proof fn zeros_keep_value(s: Seq<char>, width: nat)
    ensures
        digits_value(zero_filled(s, width)) == digits_value(s),
    decreases width - s.len(),
{
    if s.len() < width {
        let t = seq!['0'] + s;
        lemma_leading_zero(s);
        zeros_keep_value(t, width);
        assert(zero_filled(t, width) =~= zero_filled(s, width));
    }
}

/// What `str::to_lowercase` makes of a text.
pub uninterp spec fn lowercase(s: Seq<char>) -> Seq<char>;

/// Whether a text is made of ASCII characters.
pub open spec fn is_ascii_text(s: Seq<char>) -> bool {
    forall|i: int| 0 <= i < s.len() ==> (#[trigger] s[i]) as u32 <= 127
}

/// A text with the letters `A` to `Z` in lower case.
pub open spec fn ascii_lowered(s: Seq<char>) -> Seq<char> {
    s.map_values(|c: char| ascii_low(c))
}

/// Calls `str::to_lowercase`, which maps a text by the Unicode lowercase rules; of ASCII
/// characters these concern the letters `A` to `Z`. The rest of the mapping is left unsaid;
/// it depends on the text alone.
#[verifier::external_body]
pub(crate) fn to_lowercase(s: &str) -> (r: String)
    ensures
        r@ == lowercase(s@),
        is_ascii_text(s@) ==> r@ == ascii_lowered(s@),
{
    s.to_lowercase()
}

/// A text in lower case.
pub open spec fn lowered(s: Seq<char>) -> Seq<char> {
    if is_ascii_text(s) {
        ascii_lowered(s)
    } else {
        lowercase(s)
    }
}

/// What `String::from_utf8_lossy` makes of a run of bytes.
pub uninterp spec fn utf8_lossy(b: Seq<u8>) -> Seq<char>;

/// Calls `String::from_utf8_lossy`. Bytes that are UTF-8 are decoded as they stand; how
/// many replacement characters other bytes turn into is left unsaid.
#[verifier::external_body]
pub(crate) fn from_utf8_lossy(b: &[u8]) -> (r: String)
    ensures
        r@ == utf8_lossy(b@),
        valid_utf8(b@) ==> r@ == decode_utf8(b@),
{
    String::from_utf8_lossy(b).into_owned()
}

/// The text that bytes hold; replacement characters stand for what is not UTF-8.
pub open spec fn decoded(b: Seq<u8>) -> Seq<char> {
    if valid_utf8(b) {
        decode_utf8(b)
    } else {
        utf8_lossy(b)
    }
}

/// What `char::is_alphanumeric` says of a character.
pub uninterp spec fn alphanumeric(c: char) -> bool;

/// Calls `char::is_alphanumeric`: the Unicode `Alphabetic` and `Numeric` characters, among
/// them the ASCII letters and digits. The rest of the set is left unsaid.
#[verifier::external_body]
pub(crate) fn is_alphanumeric(c: char) -> (r: bool)
    ensures
        r == alphanumeric(c),
        (c as u32) < 128 ==> r == (is_digit(c) || 65 <= c as u32 <= 90 || 97 <= c as u32 <= 122),
{
    c.is_alphanumeric()
}

/// Whether a character is a letter or a digit of some script.
pub open spec fn is_word_char(c: char) -> bool {
    if (c as u32) < 128 {
        is_digit(c) || 65 <= c as u32 <= 90 || 97 <= c as u32 <= 122
    } else {
        alphanumeric(c)
    }
}

/// Whether `a` comes before `b` in dictionary order of their characters.
pub open spec fn text_before(a: Seq<char>, b: Seq<char>) -> bool
    decreases a.len(),
{
    if b.len() == 0 {
        false
    } else if a.len() == 0 {
        true
    } else if a[0] != b[0] {
        (a[0] as int) < (b[0] as int)
    } else {
        text_before(a.skip(1), b.skip(1))
    }
}

proof fn lemma_code_point(c: char)
    ensures
        c as u32 == c as int,
{
}

/// Whether `a` comes before `b` in dictionary order of their characters.
pub fn is_text_before(a: &str, b: &str) -> (r: bool)
    ensures
        r == text_before(a@, b@),
{
    let x = chars_of(a);
    let y = chars_of(b);
    let mut i: usize = 0;
    assert(a@.skip(0) == a@ && b@.skip(0) == b@);
    while i < x.len() && i < y.len()
        invariant
            x@ == a@,
            y@ == b@,
            i <= x.len(),
            i <= y.len(),
            text_before(a@, b@) == text_before(a@.skip(i as int), b@.skip(i as int)),
        decreases x.len() - i,
    {
        assert(a@.skip(i as int)[0] == x@[i as int] && b@.skip(i as int)[0] == y@[i as int]);
        let p: char = x[i];
        let q: char = y[i];
        if p != q {
            proof {
                lemma_code_point(p);
                lemma_code_point(q);
            }
            return (p as u32) < (q as u32);
        }
        assert(a@.skip(i as int).skip(1) == a@.skip(i + 1));
        assert(b@.skip(i as int).skip(1) == b@.skip(i + 1));
        i += 1;
    }
    i < y.len()
}

/// Dictionary order is a strict total order: no text comes before itself, the order is
/// transitive, and of two different texts one comes before the other.
pub proof fn text_before_is_total(a: Seq<char>, b: Seq<char>, c: Seq<char>)
    ensures
        !text_before(a, a),
        text_before(a, b) && text_before(b, c) ==> text_before(a, c),
        a == b || text_before(a, b) || text_before(b, a),
        !(text_before(a, b) && text_before(b, a)),
    decreases a.len(),
{
    if a.len() > 0 {
        let b2 = if b.len() > 0 { b.skip(1) } else { b };
        let c2 = if c.len() > 0 { c.skip(1) } else { c };
        text_before_is_total(a.skip(1), b2, c2);
        if b.len() > 0 && a[0] == b[0] && a.skip(1) == b.skip(1) {
            assert(a =~= seq![a[0]] + a.skip(1));
            assert(b =~= seq![b[0]] + b.skip(1));
        }
    } else if b.len() == 0 {
        assert(a =~= b);
    }
}

/// A letter of `A` to `Z` in lower case; any other character as it is.
pub open spec fn ascii_low(c: char) -> char {
    if 65 <= c as u32 <= 90 {
        (c as u32 + 32) as char
    } else {
        c
    }
}

/// Whether two texts differ at most in the case of the letters `A` to `Z`.
pub open spec fn same_but_case(a: Seq<char>, b: Seq<char>) -> bool {
    ascii_lowered(a) == ascii_lowered(b)
}

fn to_ascii_low(c: char) -> (r: char)
    ensures
        r == ascii_low(c),
{
    let n: u32 = c as u32;
    if 65 <= n && n <= 90 {
        ((n + 32) as u8) as char
    } else {
        c
    }
}

/// Whether two texts differ at most in the case of the letters `A` to `Z`.
pub fn is_same_but_case(a: &[char], b: &str) -> (r: bool)
    ensures
        r == same_but_case(a@, b@),
{
    let y = chars_of(b);
    let ghost x1 = ascii_lowered(a@);
    let ghost y1 = ascii_lowered(y@);
    if a.len() != y.len() {
        assert(x1.len() != y1.len());
        return false;
    }
    let mut i: usize = 0;
    while i < a.len()
        invariant
            i <= a.len(),
            a.len() == y.len(),
            y@ == b@,
            x1 == ascii_lowered(a@),
            y1 == ascii_lowered(y@),
            forall|k: int| 0 <= k < i ==> #[trigger] x1[k] == y1[k],
        decreases a.len() - i,
    {
        if to_ascii_low(a[i]) != to_ascii_low(y[i]) {
            assert(x1[i as int] != y1[i as int]);
            return false;
        }
        assert(x1[i as int] == y1[i as int]);
        i += 1;
    }
    assert(x1 =~= y1);
    true
}

/// The index of the last `c`, if there is one.
pub open spec fn last_index(s: Seq<char>, c: char) -> Option<int>
    decreases s.len(),
{
    if s.len() == 0 {
        None
    } else if s.last() == c {
        Some(s.len() - 1)
    } else {
        last_index(s.drop_last(), c)
    }
}

/// The index of the last `c`, if there is one.
pub fn find_last(s: &[char], c: char) -> (r: Option<usize>)
    ensures
        match r {
            Some(i) => i < s.len() && s@[i as int] == c && last_index(s@, c) == Some(i as int),
            None => last_index(s@, c) is None,
        },
{
    let mut n: usize = s.len();
    assert(s@.take(n as int) == s@);
    while n > 0
        invariant
            n <= s.len(),
            last_index(s@, c) == last_index(s@.take(n as int), c),
        decreases n,
    {
        if s[n - 1] == c {
            return Some(n - 1);
        }
        assert(s@.take(n as int).drop_last() == s@.take(n - 1));
        n -= 1;
    }
    None
}

/// The index of the first `c`, if there is one.
pub open spec fn first_index(s: Seq<char>, c: char) -> Option<int>
    decreases s.len(),
{
    if s.len() == 0 {
        None
    } else if s[0] == c {
        Some(0)
    } else {
        match first_index(s.skip(1), c) {
            Some(i) => Some(i + 1),
            None => None,
        }
    }
}

/// The index of the first `c`, if there is one.
pub fn find_first(s: &[char], c: char) -> (r: Option<usize>)
    ensures
        match r {
            Some(i) => i < s.len() && s@[i as int] == c && first_index(s@, c) == Some(i as int),
            None => first_index(s@, c) is None,
        },
{
    let mut i: usize = 0;
    assert(s@.skip(0) == s@);
    while i < s.len()
        invariant
            i <= s.len(),
            first_index(s@, c) == match first_index(s@.skip(i as int), c) {
                Some(k) => Some(k + i),
                None => None,
            },
        decreases s.len() - i,
    {
        if s[i] == c {
            assert(s@.skip(i as int)[0] == c);
            return Some(i);
        }
        assert(s@.skip(i as int).skip(1) == s@.skip(i + 1));
        i += 1;
    }
    None
}

/// Behind a text without `c`, the first `c` stands where the text ends.
pub proof fn first_index_behind(head: Seq<char>, c: char, tail: Seq<char>)
    requires
        !head.contains(c),
    ensures
        first_index(head + seq![c] + tail, c) == Some(head.len() as int),
    decreases head.len(),
{
    let s = head + seq![c] + tail;
    if head.len() > 0 {
        let h = head.skip(1);
        assert(head.contains(head[0]));
        assert forall|x: char| h.contains(x) implies head.contains(x) by {
            let k = choose|k: int| 0 <= k < h.len() && h[k] == x;
            assert(head[k + 1] == x);
        }
        first_index_behind(h, c, tail);
        assert(s.skip(1) =~= h + seq![c] + tail);
    }
}

/// Before a text without `c`, the last `c` stands where the text begins.
pub proof fn last_index_before(head: Seq<char>, c: char, tail: Seq<char>)
    requires
        !tail.contains(c),
    ensures
        last_index(head + seq![c] + tail, c) == Some(head.len() as int),
    decreases tail.len(),
{
    let s = head + seq![c] + tail;
    if tail.len() > 0 {
        let t = tail.drop_last();
        assert(tail.contains(tail.last()));
        assert forall|x: char| t.contains(x) implies tail.contains(x) by {
            let k = choose|k: int| 0 <= k < t.len() && t[k] == x;
            assert(tail[k] == x);
        }
        last_index_before(head, c, t);
        assert(s.drop_last() =~= head + seq![c] + t);
    }
}

/// The extension of a file name: what follows its last dot, unless nothing stands before it.
pub open spec fn extension(name: Seq<char>) -> Option<Seq<char>> {
    match last_index(name, '.') {
        Some(i) => if i == 0 || name == ".."@ {
            None
        } else {
            Some(name.skip(i + 1))
        },
        None => None,
    }
}

/// The extension of a file name.
pub fn extension_of(name: &str) -> (r: Option<String>)
    ensures
        match r {
            Some(e) => extension(name@) == Some(e@),
            None => extension(name@) is None,
        },
{
    let cs = chars_of(name);
    match find_last(&cs, '.') {
        Some(i) => if i == 0 || same_text(name, "..") {
            None
        } else {
            let e = vstd::slice::slice_subrange(cs.as_slice(), i + 1, cs.len());
            assert(e@ == name@.skip(i + 1));
            Some(string_of(e))
        },
        None => None,
    }
}

/// A text that is put together from two begins with the first and ends with the second, and a
/// text that begins or ends so is put together like that.
pub proof fn affixes_are_pieces<A>(s: Seq<A>, p: Seq<A>, t: Seq<A>)
    ensures
        has_prefix(p + t, p),
        has_suffix(t + p, p),
        has_prefix(s, p) ==> s == p + s.skip(p.len() as int),
        has_suffix(s, p) ==> s == s.take(s.len() - p.len()) + p,
{
    assert((p + t).subrange(0, p.len() as int) =~= p);
    let n = t.len() as int;
    assert((t + p).subrange(n, n + p.len()) =~= p);
    if has_prefix(s, p) {
        assert(s =~= s.subrange(0, p.len() as int) + s.skip(p.len() as int));
    }
    if has_suffix(s, p) {
        let m = s.len() - p.len();
        assert(s =~= s.take(m) + s.subrange(m, m + p.len()));
    }
}

/// A text stands within another one exactly if that is put together from it and something on
/// either side.
pub proof fn infixes_are_pieces<A>(s: Seq<A>, p: Seq<A>)
    ensures
        has_infix(s, p) <==> exists|h: Seq<A>, t: Seq<A>| s == #[trigger] (h + p + t),
{
    if has_infix(s, p) {
        let at = choose|at: int| occurs_at(s, p, at);
        let h = s.take(at);
        let t = s.skip(at + p.len());
        assert(s =~= h + p + t);
    }
    if exists|h: Seq<A>, t: Seq<A>| s == #[trigger] (h + p + t) {
        let (h, t) = choose|h: Seq<A>, t: Seq<A>| s == #[trigger] (h + p + t);
        assert(s.subrange(h.len() as int, (h.len() + p.len()) as int) =~= p);
        assert(occurs_at(s, p, h.len() as int));
    }
}

/// What trimming drops from the start of a text is white space.
pub proof fn trimming_start_drops_white(s: Seq<char>) -> (n: int)
    ensures
        0 <= n <= s.len(),
        trimmed_start(s) == s.skip(n),
        forall|i: int| 0 <= i < n ==> is_white(#[trigger] s[i]),
        n < s.len() ==> !is_white(s[n]),
    decreases s.len(),
{
    if s.len() > 0 && is_white(s[0]) {
        let m = trimming_start_drops_white(s.skip(1));
        assert(s.skip(1).skip(m) =~= s.skip(m + 1));
        assert forall|i: int| 0 <= i < m + 1 implies is_white(#[trigger] s[i]) by {
            if i > 0 {
                assert(s[i] == s.skip(1)[i - 1]);
            }
        }
        if m + 1 < s.len() {
            assert(s.skip(1)[m] == s[m + 1]);
        }
        m + 1
    } else {
        assert(s.skip(0) =~= s);
        0
    }
}

/// Trimming drops white space on either side of a text, all of it, and nothing else.
pub proof fn trimming_drops_white(s: Seq<char>) -> (r: (int, int))
    ensures
        0 <= r.0 <= r.1 <= s.len(),
        trimmed(s) == s.subrange(r.0, r.1),
        forall|i: int| 0 <= i < r.0 ==> is_white(#[trigger] s[i]),
        forall|i: int| r.1 <= i < s.len() ==> is_white(#[trigger] s[i]),
        r.0 < r.1 ==> !is_white(s[r.0]) && !is_white(s[r.1 - 1]),
{
    let a = trimming_start_drops_white(s);
    let t = s.skip(a);
    lemma_trimmed_end(t);
    lemma_trimmed_end_drops(t);
    let n = trimmed_end(t).len() as int;
    assert(t.take(n) =~= s.subrange(a, a + n));
    assert forall|i: int| a + n <= i < s.len() implies is_white(#[trigger] s[i]) by {
        assert(s[i] == t[i - a]);
    }
    if n > 0 {
        assert(trimmed(s)[0] == s[a] && trimmed(s).last() == s[a + n - 1]);
    }
    (a, a + n)
}

proof fn lemma_trimmed_end_drops(s: Seq<char>)
    ensures
        forall|i: int| trimmed_end(s).len() <= i < s.len() ==> is_white(#[trigger] s[i]),
    decreases s.len(),
{
    if s.len() > 0 && is_white(s.last()) {
        lemma_trimmed_end_drops(s.drop_last());
        assert forall|i: int| trimmed_end(s).len() <= i < s.len() implies is_white(
            #[trigger] s[i],
        ) by {
            if i < s.len() - 1 {
                assert(s[i] == s.drop_last()[i]);
            }
        }
    }
}

/// What is left of a text without the run of a character at its end does not end in that
/// character, and only that character was dropped.
pub proof fn trailing_run_is_dropped(s: Seq<char>, c: char)
    ensures
        ({
            let n = without_trailing(s, c).len();
            &&& n <= s.len()
            &&& without_trailing(s, c) == s.take(n as int)
            &&& forall|i: int| n <= i < s.len() ==> #[trigger] s[i] == c
            &&& n > 0 ==> s[n - 1] != c
        }),
    decreases s.len(),
{
    if s.len() > 0 && s.last() == c {
        let t = s.drop_last();
        trailing_run_is_dropped(t, c);
        let n = without_trailing(t, c).len();
        assert(t.take(n as int) =~= s.take(n as int));
        assert forall|i: int| n <= i < s.len() implies #[trigger] s[i] == c by {
            if i < t.len() {
                assert(s[i] == t[i]);
            }
        }
    } else {
        assert(s.take(s.len() as int) =~= s);
    }
}

/// Two texts with white space between them have the words of the first and then those of the
/// second.
pub proof fn words_of_two(a: Seq<char>, c: char, b: Seq<char>)
    requires
        is_white(c),
    ensures
        words(a + seq![c] + b) == words(a) + words(b),
        words(seq![c]) == Seq::<Seq<char>>::empty(),
    decreases b.len(),
{
    let s = a + seq![c] + b;
    reveal_with_fuel(words, 2);
    assert(seq![c].drop_last() =~= Seq::empty());
    if b.len() == 0 {
        assert(s.drop_last() =~= a);
        assert(words(a) + words(b) =~= words(a));
    } else {
        let t = b.drop_last();
        words_of_two(a, c, t);
        assert(s.drop_last() =~= a + seq![c] + t);
        assert(s.last() == b.last());
        if is_white(b.last()) {
        } else if t.len() == 0 || is_white(t.last()) {
            if t.len() == 0 {
                assert(s.drop_last().last() == c);
            } else {
                assert(s.drop_last().last() == t.last());
            }
            assert(words(a) + words(b) =~= (words(a) + words(t)).push(seq![b.last()]));
        } else {
            assert(s.drop_last().last() == t.last());
            lemma_open_word(t);
            let w = words(t);
            assert((words(a) + w).last() == w.last());
            assert((words(a) + w).drop_last().push(w.last().push(b.last())) =~= words(a)
                + w.drop_last().push(w.last().push(b.last())));
        }
    }
}

proof fn lemma_open_word(s: Seq<char>)
    requires
        s.len() > 0,
        !is_white(s.last()),
    ensures
        words(s).len() > 0,
{
}

/// A text without white space is one word.
pub proof fn visible_text_is_a_word(s: Seq<char>)
    requires
        s.len() > 0,
        forall|i: int| 0 <= i < s.len() ==> !is_white(#[trigger] s[i]),
    ensures
        words(s) == seq![s],
    decreases s.len(),
{
    let t = s.drop_last();
    if t.len() == 0 {
        assert(words(t) =~= Seq::empty());
        assert(s =~= seq![s.last()]);
        assert(words(s) =~= seq![s]);
    } else {
        assert forall|i: int| 0 <= i < t.len() implies !is_white(#[trigger] t[i]) by {
            assert(t[i] == s[i]);
        }
        visible_text_is_a_word(t);
        assert(t.push(s.last()) =~= s);
        assert(words(s) =~= seq![s]);
    }
}

/// A text without the separator is one field.
pub proof fn text_without_separator_is_a_field(s: Seq<char>, sep: char)
    requires
        !s.contains(sep),
    ensures
        fields(s, sep) == seq![s],
    decreases s.len(),
{
    if s.len() == 0 {
        assert(s =~= Seq::empty());
    } else {
        let t = s.drop_last();
        assert(s[s.len() - 1] != sep);
        assert forall|i: int| 0 <= i < t.len() implies t[i] != sep by {
            assert(t[i] == s[i]);
        }
        text_without_separator_is_a_field(t, sep);
        assert(t.push(s.last()) =~= s);
        assert(fields(s, sep) =~= seq![s]);
    }
}

/// Two texts with a separator between them have the fields of the first and then those of the
/// second.
pub proof fn fields_of_two(a: Seq<char>, sep: char, b: Seq<char>)
    ensures
        fields(a + seq![sep] + b, sep) == fields(a, sep) + fields(b, sep),
        fields(b, sep).len() > 0,
    decreases b.len(),
{
    let s = a + seq![sep] + b;
    if b.len() == 0 {
        assert(s.drop_last() =~= a);
        assert(fields(s, sep) =~= fields(a, sep) + fields(b, sep));
    } else {
        let t = b.drop_last();
        fields_of_two(a, sep, t);
        assert(s.drop_last() =~= a + seq![sep] + t);
        assert(s.last() == b.last());
        let w = fields(t, sep);
        assert((fields(a, sep) + w).last() == w.last());
        assert(fields(s, sep) =~= fields(a, sep) + fields(b, sep));
    }
}

/// Texts are joined one behind the other, with the separator before each but the first.
pub proof fn joining_appends(parts: Seq<Seq<char>>, x: Seq<char>, sep: Seq<char>)
    ensures
        joined(Seq::empty(), sep) == Seq::<char>::empty(),
        joined(seq![x], sep) == x,
        parts.len() > 0 ==> joined(parts.push(x), sep) == joined(parts, sep) + sep + x,
{
    assert(parts.push(x).drop_last() =~= parts);
}

/// Texts without the separator that are joined with it are split into the same texts again.
pub proof fn joined_texts_are_split_again(parts: Seq<Seq<char>>, sep: char)
    requires
        parts.len() > 0,
        forall|i: int| 0 <= i < parts.len() ==> !(#[trigger] parts[i]).contains(sep),
    ensures
        fields(joined(parts, seq![sep]), sep) == parts,
    decreases parts.len(),
{
    if parts.len() == 1 {
        text_without_separator_is_a_field(parts[0], sep);
        assert(seq![parts[0]] =~= parts);
    } else {
        let before = parts.drop_last();
        assert forall|i: int| 0 <= i < before.len() implies !(#[trigger] before[i]).contains(
            sep,
        ) by {
            assert(before[i] == parts[i]);
        }
        joined_texts_are_split_again(before, sep);
        fields_of_two(joined(before, seq![sep]), sep, parts.last());
        assert(!parts[parts.len() - 1].contains(sep));
        text_without_separator_is_a_field(parts.last(), sep);
        assert(before + seq![parts.last()] =~= parts);
    }
}

/// A run of digits is read place by place: one more digit makes ten times the number, and the
/// value of the digit on top. Anything else in it makes it no number.
pub proof fn digits_are_read_by_place(s: Seq<char>, c: char, max: nat)
    ensures
        digits_value(Seq::empty()) == 0,
        digits_value(seq![c]) == (c as u32 - '0' as u32) as nat || !('0' as u32 <= c as u32
            <= '9' as u32),
        '0' as u32 <= c as u32 <= '9' as u32 ==> digits_value(s.push(c)) == 10 * digits_value(s)
            + (c as u32 - '0' as u32),
        !('0' as u32 <= c as u32 <= '9' as u32) ==> magnitude(s.push(c), max) is None
            && magnitude(seq![c] + s, max) is None,
        magnitude(Seq::empty(), max) is None,
{
    reveal_with_fuel(digits_value, 2);
    assert(s.push(c).drop_last() =~= s);
    assert(seq![c].drop_last() =~= Seq::empty());
    assert(s.push(c)[s.len() as int] == c);
    assert((seq![c] + s)[0] == c);
}

/// A run of digits is a number exactly if it does not exceed the greatest that is wanted; a sign
/// may stand before it, a minus only where negative numbers are wanted.
pub proof fn numbers_may_have_signs(s: Seq<char>, min: int, max: int)
    requires
        s.len() > 0,
        forall|i: int| 0 <= i < s.len() ==> '0' as u32 <= (#[trigger] s[i]) as u32 <= '9' as u32,
        min < 0 <= max,
    ensures
        digits_value(s) <= max ==> magnitude(s, max as nat) == Some(digits_value(s))
            && unsigned(s, max as nat) == Some(digits_value(s)) && unsigned(
            seq!['+'] + s,
            max as nat,
        ) == Some(digits_value(s)) && signed(s, min, max) == Some(digits_value(s) as int)
            && signed(seq!['+'] + s, min, max) == Some(digits_value(s) as int),
        digits_value(s) > max ==> magnitude(s, max as nat) is None && unsigned(s, max as nat)
            is None && unsigned(seq!['+'] + s, max as nat) is None && signed(s, min, max) is None,
        -digits_value(s) >= min ==> signed(seq!['-'] + s, min, max) == Some(
            -(digits_value(s) as int),
        ),
        -digits_value(s) < min ==> signed(seq!['-'] + s, min, max) is None,
        unsigned(seq!['-'] + s, max as nat) is None,
{
    assert(s[0] != '+' && s[0] != '-');
    assert((seq!['+'] + s).skip(1) =~= s);
    assert((seq!['-'] + s).skip(1) =~= s);
    assert((seq!['-'] + s)[0] == '-');
    assert(!is_digit('-'));
}

/// A number is written with its digits alone, without a zero in front.
pub proof fn decimals_are_plain(n: nat)
    ensures
        decimal(n).len() > 0,
        forall|i: int|
            0 <= i < decimal(n).len() ==> '0' as u32 <= (#[trigger] decimal(n)[i]) as u32
                <= '9' as u32,
        n > 0 ==> decimal(n)[0] != '0',
        n == 0 ==> decimal(n) == seq!['0'],
        digits_value(decimal(n)) == n,
    decreases n,
{
    decimal_is_read_back(n, n);
    if n >= 10 {
        decimals_are_plain(n / 10);
        assert(decimal(n)[0] == decimal(n / 10)[0]);
    }
}

/// Two numbers that are written alike are the same.
pub proof fn decimals_differ(n: nat, m: nat)
    requires
        decimal(n) == decimal(m),
    ensures
        n == m,
{
    decimal_is_read_back(n, n);
    decimal_is_read_back(m, m);
}

/// A number that is filled up keeps its digits behind zeros, and is as long as is wanted.
pub proof fn filled_numbers_keep_digits(s: Seq<char>, width: nat)
    ensures
        s.len() >= width ==> zero_filled(s, width) == s,
        s.len() < width ==> zero_filled(s, width).len() == width,
        has_suffix(zero_filled(s, width), s),
        forall|i: int|
            0 <= i < zero_filled(s, width).len() - s.len() ==> #[trigger] zero_filled(s, width)[i]
                == '0',
{
    let r = zero_filled(s, width);
    let n = r.len() - s.len();
    assert(r.subrange(n, n + s.len()) =~= s);
}

/// Dictionary order goes by the first character that differs, and puts a text before a longer one
/// that begins with it.
pub proof fn first_difference_decides(h: Seq<char>, a: char, b: char, x: Seq<char>, y: Seq<char>)
    ensures
        (a as u32) < (b as u32) ==> text_before(h + seq![a] + x, h + seq![b] + y),
        text_before(h, h + seq![a] + x),
    decreases h.len(),
{
    let p = h + seq![a] + x;
    let q = h + seq![b] + y;
    if h.len() > 0 {
        first_difference_decides(h.skip(1), a, b, x, y);
        assert(p.skip(1) =~= h.skip(1) + seq![a] + x);
        assert(q.skip(1) =~= h.skip(1) + seq![b] + y);
    }
}

/// Two texts differ at most in case exactly if they are as long as each other, and each character
/// is the same or the small and the capital form of one letter.
pub proof fn case_is_of_letters(a: Seq<char>, b: Seq<char>)
    ensures
        same_but_case(a, b) <==> a.len() == b.len() && forall|i: int|
            0 <= i < a.len() ==> (#[trigger] a[i] == b[i] || ('A' as u32 <= a[i] as u32
                <= 'Z' as u32 && b[i] as u32 == a[i] as u32 + 32) || ('A' as u32 <= b[i] as u32
                <= 'Z' as u32 && a[i] as u32 == b[i] as u32 + 32)),
{
    let x = ascii_lowered(a);
    let y = ascii_lowered(b);
    if same_but_case(a, b) {
        assert(x.len() == a.len() && y.len() == b.len());
        assert forall|i: int| 0 <= i < a.len() implies (#[trigger] a[i] == b[i] || ('A' as u32
            <= a[i] as u32 <= 'Z' as u32 && b[i] as u32 == a[i] as u32 + 32) || ('A' as u32
            <= b[i] as u32 <= 'Z' as u32 && a[i] as u32 == b[i] as u32 + 32)) by {
            assert(x[i] == ascii_low(a[i]) && y[i] == ascii_low(b[i]));
            let m = a[i] as u32;
            let n = b[i] as u32;
            if 65 <= m <= 90 {
                assert(ascii_low(a[i]) as u32 == m + 32);
            }
            if 65 <= n <= 90 {
                assert(ascii_low(b[i]) as u32 == n + 32);
            }
            lemma_code_point(a[i]);
            lemma_code_point(b[i]);
            assert(m == n ==> a[i] == b[i]);
        }
    } else if a.len() == b.len() && forall|i: int|
        0 <= i < a.len() ==> (#[trigger] a[i] == b[i] || ('A' as u32 <= a[i] as u32 <= 'Z' as u32
            && b[i] as u32 == a[i] as u32 + 32) || ('A' as u32 <= b[i] as u32 <= 'Z' as u32
            && a[i] as u32 == b[i] as u32 + 32)) {
        assert forall|i: int| 0 <= i < x.len() implies x[i] == y[i] by {
            assert(a[i] == a[i]);
        }
        assert(x =~= y);
    }
}

/// The extension of a name is what stands behind its last dot; a name without a dot, or with its
/// only one in front, has none.
pub proof fn extension_follows_last_dot(head: Seq<char>, ext: Seq<char>)
    requires
        !ext.contains('.'),
    ensures
        head.len() > 0 && head + seq!['.'] + ext != seq!['.', '.'] ==> extension(
            head + seq!['.'] + ext,
        ) == Some(ext),
        extension(ext) is None,
        extension(seq!['.'] + ext) is None,
{
    reveal_strlit("..");
    assert(".."@ =~= seq!['.', '.']);
    let name = head + seq!['.'] + ext;
    last_index_before(head, '.', ext);
    assert(name.skip((head.len() + 1) as int) =~= ext);
    last_index_before(Seq::empty(), '.', ext);
    assert(Seq::empty() + seq!['.'] + ext =~= seq!['.'] + ext);
    lemma_no_last_index(ext, '.');
}

proof fn lemma_no_last_index(s: Seq<char>, c: char)
    requires
        !s.contains(c),
    ensures
        last_index(s, c) is None,
    decreases s.len(),
{
    if s.len() > 0 {
        assert(s[s.len() - 1] != c);
        assert forall|i: int| 0 <= i < s.len() - 1 implies s.drop_last()[i] != c by {
            assert(s.drop_last()[i] == s[i]);
        }
        lemma_no_last_index(s.drop_last(), c);
    }
}

/// Of the plain characters the blank and the five from tab to carriage return are white; letters,
/// digits and signs are not.
pub proof fn blanks_and_line_ends_are_white(c: char)
    requires
        (c as u32) < 0x80,
    ensures
        is_white(c) <==> c == ' ' || 9 <= c as u32 <= 13,
        is_word_char(c) ==> !is_white(c),
{
}

} // verus!
