//! Text at the level of characters: what the other modules read out of names,
//! ids and addresses, and how they write numbers back.
use vstd::prelude::*;

verus! {

/// `String::push`: the character goes to the end of the string.
pub assume_specification[ String::push ](s: &mut String, c: char)
    ensures
        final(s)@ == old(s)@.push(c),
;

/// The characters of `s`, in order.
pub fn chars_of(s: &str) -> (out: Vec<char>)
    ensures
        out@ == s@,
{
    let mut out: Vec<char> = Vec::new();
    for c in it: s.chars()
        invariant
            it.seq() == s@,
            out@ == s@.take(it.index() as int),
    {
        out.push(c);
        proof {
            assert(s@.take(it.index() as int).push(c) =~= s@.take(it.index() + 1));
        }
    }
    proof {
        assert(s@.take(s@.len() as int) =~= s@);
    }
    out
}

/// The string made of `chars`.
pub fn text_of(chars: &Vec<char>) -> (out: String)
    ensures
        out@ == chars@,
{
    let mut out: String = String::new();
    let mut i: usize = 0;
    while i < chars.len()
        invariant
            i <= chars@.len(),
            out@ == chars@.take(i as int),
        decreases chars@.len() - i,
    {
        out.push(chars[i]);
        proof {
            assert(chars@.take(i as int).push(chars@[i as int]) =~= chars@.take(i + 1));
        }
        i = i + 1;
    }
    proof {
        assert(chars@.take(i as int) =~= chars@);
    }
    out
}

/// Whether two texts hold the same characters.
pub fn same_text(a: &str, b: &str) -> (same: bool)
    ensures
        same == (a@ == b@),
{
    let x: String = a.to_owned();
    let y: String = b.to_owned();
    x == y
}

/// The value of `c` as a digit in `radix` (at most sixteen), in either case.
pub open spec fn digit_value(c: char, radix: nat) -> Option<nat> {
    let v: int = if '0' <= c <= '9' {
        c as int - '0' as int
    } else if 'a' <= c <= 'f' {
        c as int - 'a' as int + 10
    } else if 'A' <= c <= 'F' {
        c as int - 'A' as int + 10
    } else {
        16
    };
    if v < radix && v < 16 {
        Some(v as nat)
    } else {
        None
    }
}

/// The number that a run of digits stands for; `None` if one is no digit.
pub open spec fn digits_value(s: Seq<char>, radix: nat) -> Option<nat>
    decreases s.len(),
{
    if s.len() == 0 {
        Some(0)
    } else {
        match (digits_value(s.drop_last(), radix), digit_value(s.last(), radix)) {
            (Some(hi), Some(lo)) => Some(hi * radix + lo),
            _ => None,
        }
    }
}

/// The unsigned number that a text stands for: at least one digit, after an
/// optional plus sign.
pub open spec fn unsigned_value(s: Seq<char>, radix: nat) -> Option<nat> {
    let body = if s.len() > 0 && s[0] == '+' {
        s.skip(1)
    } else {
        s
    };
    if body.len() == 0 {
        None
    } else {
        digits_value(body, radix)
    }
}

/// `unsigned_value`, for numbers up to `max`.
pub open spec fn bounded_value(s: Seq<char>, radix: nat, max: nat) -> Option<nat> {
    match unsigned_value(s, radix) {
        Some(n) => if n <= max {
            Some(n)
        } else {
            None
        },
        None => None,
    }
}

/// Longer runs of digits stand for numbers at least as large.
proof fn lemma_digits_grow(s: Seq<char>, k: int, radix: nat)
    requires
        0 <= k <= s.len(),
        radix >= 1,
        digits_value(s, radix) is Some,
    ensures
        digits_value(s.take(k), radix) is Some,
        digits_value(s.take(k), radix)->0 <= digits_value(s, radix)->0,
    decreases s.len(),
{
    if k == s.len() {
        assert(s.take(k) =~= s);
    } else {
        let hi = digits_value(s.drop_last(), radix)->0;
        assert(s.drop_last().take(k) =~= s.take(k));
        lemma_digits_grow(s.drop_last(), k, radix);
        assert(hi <= hi * radix) by (nonlinear_arith)
            requires
                radix >= 1,
        ;
    }
}

fn digit_of(c: char, radix: u64) -> (d: Option<u64>)
    requires
        radix <= 16,
    ensures
        match digit_value(c, radix as nat) {
            Some(v) => d == Some(v as u64),
            None => d is None,
        },
{
    let v: u64 = if '0' <= c && c <= '9' {
        c as u64 - '0' as u64
    } else if 'a' <= c && c <= 'f' {
        c as u64 - 'a' as u64 + 10
    } else if 'A' <= c && c <= 'F' {
        c as u64 - 'A' as u64 + 10
    } else {
        16
    };
    if v < radix && v < 16 {
        Some(v)
    } else {
        None
    }
}

/// Reads an unsigned number of at most `max`.
pub fn parse_bounded(s: &Vec<char>, radix: u64, max: u64) -> (out: Option<u64>)
    requires
        2 <= radix <= 16,
    ensures
        match bounded_value(s@, radix as nat, max as nat) {
            Some(n) => out == Some(n as u64),
            None => out is None,
        },
{
    let n: usize = s.len();
    let start: usize = if n > 0 && s[0] == '+' {
        1
    } else {
        0
    };
    if start == n {
        return None;
    }
    let ghost body = s@.skip(start as int);
    proof {
        assert(s@.skip(0) =~= s@);
        assert(body.take(0) =~= Seq::<char>::empty());
    }
    let mut acc: u64 = 0;
    let mut i: usize = start;
    while i < n
        invariant
            n == s@.len(),
            start <= i <= n,
            2 <= radix <= 16,
            body == s@.skip(start as int),
            digits_value(body.take(i - start), radix as nat) == Some(acc as nat),
            acc <= max,
            bounded_value(s@, radix as nat, max as nat) == (match digits_value(
                body,
                radix as nat,
            ) {
                Some(v) => if v <= max as nat {
                    Some(v)
                } else {
                    None
                },
                None => None,
            }),
        decreases n - i,
    {
        proof {
            let pre = body.take(i + 1 - start);
            assert(pre.drop_last() =~= body.take(i - start));
            assert(pre.last() == s@[i as int]);
            if digits_value(body, radix as nat) is Some {
                lemma_digits_grow(body, i + 1 - start, radix as nat);
            }
        }
        match digit_of(s[i], radix) {
            None => {
                return None;
            },
            Some(d) => {
                match acc.checked_mul(radix) {
                    None => {
                        return None;
                    },
                    Some(m) => match m.checked_add(d) {
                        None => {
                            return None;
                        },
                        Some(v) => {
                            if v > max {
                                return None;
                            }
                            acc = v;
                        },
                    },
                }
            },
        }
        i = i + 1;
    }
    proof {
        assert(body.take(i - start) =~= body);
    }
    Some(acc)
}

/// Reads a decimal `u64`, as `str::parse` does.
pub fn parse_u64(s: &str) -> (out: Option<u64>)
    ensures
        match bounded_value(s@, 10, u64::MAX as nat) {
            Some(n) => out == Some(n as u64),
            None => out is None,
        },
{
    let v: Vec<char> = chars_of(s);
    parse_bounded(&v, 10, u64::MAX)
}

/// The digit character for `d` below sixteen, in lower case.
pub open spec fn digit_char(d: nat) -> char {
    if d < 10 {
        (d + '0' as int) as char
    } else {
        (d - 10 + 'a' as int) as char
    }
}

/// `n` in decimal, without leading zeros.
pub open spec fn decimal(n: nat) -> Seq<char>
    decreases n,
{
    if n < 10 {
        seq![digit_char(n)]
    } else {
        decimal(n / 10).push(digit_char(n % 10))
    }
}

/// Reading back a number written in decimal gives that number.
pub proof fn decimal_round_trip(n: nat)
    ensures
        unsigned_value(decimal(n), 10) == Some(n),
{
    lemma_decimal_digits(n);
}

proof fn lemma_decimal_digits(n: nat)
    ensures
        digits_value(decimal(n), 10) == Some(n),
        decimal(n).len() > 0,
        decimal(n)[0] != '+',
    decreases n,
{
    reveal_with_fuel(digits_value, 2);
    if n < 10 {
        assert(decimal(n).drop_last() =~= Seq::<char>::empty());
    } else {
        lemma_decimal_digits(n / 10);
        assert(decimal(n).drop_last() =~= decimal(n / 10));
    }
}

fn digit_text(d: u64) -> (c: char)
    requires
        d < 16,
    ensures
        c == digit_char(d as nat),
{
    if d < 10 {
        (48 + d as u8) as char
    } else {
        (87 + d as u8) as char
    }
}

/// Appends `n` in decimal.
pub fn push_decimal(out: &mut String, n: u64)
    ensures
        final(out)@ == old(out)@ + decimal(n as nat),
    decreases n,
{
    if n >= 10 {
        push_decimal(out, n / 10);
    }
    out.push(digit_text(n % 10));
    proof {
        assert(out@ =~= old(out)@ + decimal(n as nat));
    }
}

/// `n` in decimal.
pub fn u64_text(n: u64) -> (out: String)
    ensures
        out@ == decimal(n as nat),
{
    let mut out: String = String::new();
    push_decimal(&mut out, n);
    proof {
        assert(out@ =~= decimal(n as nat));
    }
    out
}

/// A byte as two lower-case hexadecimal digits.
pub open spec fn hex_byte(b: u8) -> Seq<char> {
    seq![digit_char((b / 16) as nat), digit_char((b % 16) as nat)]
}

/// Appends a byte as two lower-case hexadecimal digits.
pub fn push_hex_byte(out: &mut String, b: u8)
    ensures
        final(out)@ == old(out)@ + hex_byte(b),
{
    out.push(digit_text((b / 16) as u64));
    out.push(digit_text((b % 16) as u64));
    proof {
        assert(out@ =~= old(out)@ + hex_byte(b));
    }
}

/// Reading back a byte written in hexadecimal gives that byte.
pub proof fn hex_byte_round_trip(b: u8)
    ensures
        unsigned_value(hex_byte(b), 16) == Some(b as nat),
{
    reveal_with_fuel(digits_value, 3);
    let s = hex_byte(b);
    assert(s.drop_last() =~= seq![digit_char((b / 16) as nat)]);
    assert(s.drop_last().drop_last() =~= Seq::<char>::empty());
}

/// The pieces of `s` between the separators; always at least one.
pub open spec fn split(s: Seq<char>, sep: char) -> Seq<Seq<char>>
    decreases s.len(),
{
    if s.len() == 0 {
        seq![Seq::empty()]
    } else {
        let before = split(s.drop_last(), sep);
        if s.last() == sep {
            before.push(Seq::empty())
        } else {
            before.drop_last().push(before.last().push(s.last()))
        }
    }
}

pub proof fn lemma_split_nonempty(s: Seq<char>, sep: char)
    ensures
        split(s, sep).len() > 0,
    decreases s.len(),
{
    if s.len() > 0 {
        lemma_split_nonempty(s.drop_last(), sep);
    }
}

/// The pieces put together, with a separator between each two.
pub open spec fn join(parts: Seq<Seq<char>>, sep: char) -> Seq<char>
    decreases parts.len(),
{
    if parts.len() == 0 {
        Seq::empty()
    } else if parts.len() == 1 {
        parts[0]
    } else {
        join(parts.drop_last(), sep).push(sep) + parts.last()
    }
}

/// Characters that are no separators go to the last piece.
proof fn lemma_split_extend(s: Seq<char>, part: Seq<char>, sep: char)
    requires
        !part.contains(sep),
    ensures
        split(s + part, sep) == split(s, sep).drop_last().push(split(s, sep).last() + part),
    decreases part.len(),
{
    lemma_split_nonempty(s, sep);
    let before = split(s, sep);
    if part.len() == 0 {
        assert(s + part =~= s);
        assert(before.last() + part =~= before.last());
        assert(before.drop_last().push(before.last()) =~= before);
    } else {
        let init = part.drop_last();
        assert(!init.contains(sep)) by {
            if init.contains(sep) {
                let i = init.index_of(sep);
                assert(part[i] == sep);
            }
        }
        lemma_split_extend(s, init, sep);
        assert((s + part).drop_last() =~= s + init);
        assert((s + part).last() == part.last());
        assert(part[part.len() - 1] == part.last());
        let mid = split(s + init, sep);
        assert(mid.drop_last() =~= before.drop_last());
        assert(mid.last() == before.last() + init);
        assert((before.last() + init).push(part.last()) =~= before.last() + part);
    }
}

/// Splitting gives back the pieces that were joined.
pub proof fn split_undoes_join(parts: Seq<Seq<char>>, sep: char)
    requires
        parts.len() > 0,
        forall|i: int| 0 <= i < parts.len() ==> !(#[trigger] parts[i]).contains(sep),
    ensures
        split(join(parts, sep), sep) == parts,
    decreases parts.len(),
{
    let empty = Seq::<char>::empty();
    if parts.len() == 1 {
        lemma_split_extend(empty, parts[0], sep);
        assert(empty + parts[0] =~= parts[0]);
        assert(split(empty, sep).drop_last().push(split(empty, sep).last() + parts[0]) =~= parts);
    } else {
        let init = parts.drop_last();
        assert forall|i: int| 0 <= i < init.len() implies !(#[trigger] init[i]).contains(sep) by {
            assert(parts[i] == init[i]);
        }
        split_undoes_join(init, sep);
        let head = join(init, sep).push(sep);
        assert(head.drop_last() =~= join(init, sep));
        assert(split(head, sep) == init.push(empty));
        assert(!parts[parts.len() - 1].contains(sep));
        lemma_split_extend(head, parts.last(), sep);
        assert(init.push(empty).drop_last() =~= init);
        assert(empty + parts.last() =~= parts.last());
        assert(init.push(parts.last()) =~= parts);
    }
}

/// Splits a text at every separator.
pub fn split_chars(s: &Vec<char>, sep: char) -> (out: Vec<Vec<char>>)
    ensures
        out@.map_values(|v: Vec<char>| v@) == split(s@, sep),
{
    let mut done: Vec<Vec<char>> = Vec::new();
    let mut cur: Vec<char> = Vec::new();
    let mut i: usize = 0;
    proof {
        assert(s@.take(0) =~= Seq::<char>::empty());
        assert(done@.map_values(|v: Vec<char>| v@).push(cur@) =~= seq![Seq::<char>::empty()]);
    }
    while i < s.len()
        invariant
            i <= s@.len(),
            done@.map_values(|v: Vec<char>| v@).push(cur@) == split(s@.take(i as int), sep),
        decreases s@.len() - i,
    {
        let ghost before = done@.map_values(|v: Vec<char>| v@).push(cur@);
        let ghost done0 = done@.map_values(|v: Vec<char>| v@);
        proof {
            assert(s@.take(i + 1).drop_last() =~= s@.take(i as int));
            assert(s@.take(i + 1).last() == s@[i as int]);
        }
        if s[i] == sep {
            let mut next: Vec<char> = Vec::new();
            let ghost cur0 = cur@;
            std::mem::swap(&mut next, &mut cur);
            done.push(next);
            proof {
                assert(done@.map_values(|v: Vec<char>| v@) =~= done0.push(cur0));
                assert(done@.map_values(|v: Vec<char>| v@).push(cur@) =~= before.push(
                    Seq::empty(),
                ));
            }
        } else {
            let ghost cur0 = cur@;
            cur.push(s[i]);
            proof {
                assert(before.drop_last() =~= done0);
                assert(before.last() == cur0);
            }
        }
        i = i + 1;
    }
    proof {
        assert(s@.take(i as int) =~= s@);
    }
    let ghost done0 = done@.map_values(|v: Vec<char>| v@);
    let ghost cur0 = cur@;
    done.push(cur);
    proof {
        assert(done@.map_values(|v: Vec<char>| v@) =~= done0.push(cur0));
    }
    done
}

/// The Unicode white-space characters.
pub open spec fn is_white(c: char) -> bool {
    ||| '\u{9}' <= c <= '\u{d}'
    ||| c == ' '
    ||| c == '\u{85}'
    ||| c == '\u{a0}'
    ||| c == '\u{1680}'
    ||| '\u{2000}' <= c <= '\u{200a}'
    ||| c == '\u{2028}'
    ||| c == '\u{2029}'
    ||| c == '\u{202f}'
    ||| c == '\u{205f}'
    ||| c == '\u{3000}'
}

fn white(c: char) -> (r: bool)
    ensures
        r == is_white(c),
{
    ('\u{9}' <= c && c <= '\u{d}') || c == ' ' || c == '\u{85}' || c == '\u{a0}' || c == '\u{1680}'
        || ('\u{2000}' <= c && c <= '\u{200a}') || c == '\u{2028}' || c == '\u{2029}' || c
        == '\u{202f}' || c == '\u{205f}' || c == '\u{3000}'
}

/// Whether nothing is left of a text once white space is trimmed off it.
pub open spec fn is_blank(s: Seq<char>) -> bool {
    forall|i: int| 0 <= i < s.len() ==> is_white(#[trigger] s[i])
}

/// Whether a text is empty or all white space.
pub fn blank(s: &str) -> (r: bool)
    ensures
        r == is_blank(s@),
{
    let v: Vec<char> = chars_of(s);
    let mut i: usize = 0;
    while i < v.len()
        invariant
            v@ == s@,
            i <= v@.len(),
            forall|j: int| 0 <= j < i ==> is_white(#[trigger] v@[j]),
        decreases v@.len() - i,
    {
        if !white(v[i]) {
            proof {
                assert(!is_white(s@[i as int]));
            }
            return false;
        }
        i = i + 1;
    }
    true
}

/// `s` without the white space at its two ends.
pub open spec fn trimmed(s: Seq<char>) -> Seq<char>
    decreases s.len(),
{
    if s.len() == 0 {
        s
    } else if is_white(s[0]) {
        trimmed(s.drop_first())
    } else if is_white(s.last()) {
        trimmed(s.drop_last())
    } else {
        s
    }
}

/// Trims white space off both ends.
pub fn trim_chars(v: &Vec<char>) -> (out: Vec<char>)
    ensures
        out@ == trimmed(v@),
{
    let mut lo: usize = 0;
    let mut hi: usize = v.len();
    proof {
        assert(v@.subrange(0, hi as int) =~= v@);
    }
    while lo < hi && white(v[lo])
        invariant
            lo <= hi == v@.len(),
            trimmed(v@.subrange(lo as int, hi as int)) == trimmed(v@),
        decreases hi - lo,
    {
        proof {
            let w = v@.subrange(lo as int, hi as int);
            assert(w.drop_first() =~= v@.subrange(lo + 1, hi as int));
        }
        lo = lo + 1;
    }
    while lo < hi && white(v[hi - 1])
        invariant
            lo <= hi <= v@.len(),
            lo < hi ==> !is_white(v@[lo as int]),
            trimmed(v@.subrange(lo as int, hi as int)) == trimmed(v@),
        decreases hi - lo,
    {
        proof {
            let w = v@.subrange(lo as int, hi as int);
            assert(w.drop_last() =~= v@.subrange(lo as int, hi - 1));
        }
        hi = hi - 1;
    }
    let mut out: Vec<char> = Vec::new();
    let mut i: usize = lo;
    while i < hi
        invariant
            lo <= i <= hi <= v@.len(),
            out@ == v@.subrange(lo as int, i as int),
        decreases hi - i,
    {
        out.push(v[i]);
        proof {
            assert(v@.subrange(lo as int, i as int).push(v@[i as int]) =~= v@.subrange(
                lo as int,
                i + 1,
            ));
        }
        i = i + 1;
    }
    out
}

/// `c` with an upper-case ASCII letter turned into lower case.
pub open spec fn lower_char(c: char) -> char {
    if 'A' <= c <= 'Z' {
        (c as int + 32) as char
    } else {
        c
    }
}

/// `s` with its ASCII letters in lower case.
pub open spec fn lower_ascii(s: Seq<char>) -> Seq<char> {
    s.map_values(|c: char| lower_char(c))
}

/// The text with its ASCII letters in lower case.
pub fn to_lower_ascii(s: &str) -> (out: String)
    ensures
        out@ == lower_ascii(s@),
{
    let v: Vec<char> = chars_of(s);
    let mut out: String = String::new();
    let mut i: usize = 0;
    while i < v.len()
        invariant
            v@ == s@,
            i <= v@.len(),
            out@ == lower_ascii(s@.take(i as int)),
        decreases v@.len() - i,
    {
        let c: char = v[i];
        if 'A' <= c && c <= 'Z' {
            out.push((c as u8 + 32) as char);
        } else {
            out.push(c);
        }
        i = i + 1;
        proof {
            assert(out@ =~= lower_ascii(s@.take(i as int)));
        }
    }
    proof {
        assert(s@.take(i as int) =~= s@);
    }
    out
}

/// An optional text by its characters.
pub open spec fn opt(o: Option<String>) -> Option<Seq<char>> {
    match o {
        Some(s) => Some(s@),
        None => None,
    }
}

pub fn copy_opt(o: &Option<String>) -> (r: Option<String>)
    ensures
        r == *o,
{
    match o {
        Some(s) => Some(s.clone()),
        None => None,
    }
}

/// Whether two optional texts are the same.
pub fn same_opt(a: &Option<String>, b: &Option<String>) -> (r: bool)
    ensures
        r == (opt(*a) == opt(*b)),
{
    match (a, b) {
        (Some(x), Some(y)) => same_text(x.as_str(), y.as_str()),
        (None, None) => true,
        _ => false,
    }
}

/// Whether an optional text is this one.
pub fn is_text(a: &Option<String>, b: &String) -> (r: bool)
    ensures
        r == (opt(*a) == Some(b@)),
{
    match a {
        Some(x) => same_text(x.as_str(), b.as_str()),
        None => false,
    }
}

/// The text, unless it is blank.
pub open spec fn filled_of(o: Option<Seq<char>>) -> Option<Seq<char>> {
    match o {
        Some(s) => if is_blank(s) {
            None
        } else {
            Some(s)
        },
        None => None,
    }
}

pub fn filled(o: Option<String>) -> (r: Option<String>)
    ensures
        opt(r) == filled_of(opt(o)),
{
    match o {
        Some(s) => if blank(s.as_str()) {
            None
        } else {
            Some(s)
        },
        None => None,
    }
}

/// The texts of a list.
pub open spec fn views(list: Seq<String>) -> Seq<Seq<char>> {
    list.map_values(|s: String| s@)
}

/// Whether the list holds the text.
pub fn holds_text(list: &Vec<String>, s: &String) -> (r: bool)
    ensures
        r == views(list@).contains(s@),
{
    let mut i: usize = 0;
    while i < list.len()
        invariant
            i <= list@.len(),
            forall|j: int| 0 <= j < i ==> (#[trigger] list@[j])@ != s@,
        decreases list@.len() - i,
    {
        if same_text(list[i].as_str(), s.as_str()) {
            proof {
                assert(views(list@)[i as int] == s@);
            }
            return true;
        }
        i = i + 1;
    }
    proof {
        if views(list@).contains(s@) {
            let j = views(list@).index_of(s@);
            assert(views(list@)[j] == list@[j]@);
        }
    }
    false
}

/// A digit that is written reads back as its own value, in either case, and nothing
/// is a digit whose value is not below the radix.
pub proof fn digits_read_back(d: nat, c: char, radix: nat)
    requires
        2 <= radix <= 16,
    ensures
        d < radix ==> digit_value(digit_char(d), radix) == Some(d),
        digit_value(c, radix) == digit_value(lower_char(c), radix),
        digit_value(c, radix) matches Some(v) ==> v < radix && digit_char(v) == lower_char(c),
{
}

/// A plus sign before the digits changes nothing; there must be a digit, and no second
/// sign.
pub proof fn plus_signs_change_nothing(s: Seq<char>, radix: nat)
    requires
        2 <= radix <= 16,
    ensures
        unsigned_value(Seq::empty(), radix) is None,
        s.len() > 0 && s[0] != '+' ==> unsigned_value(seq!['+'] + s, radix) == unsigned_value(
            s,
            radix,
        ),
        s.len() == 0 || s[0] == '+' ==> unsigned_value(seq!['+'] + s, radix) is None,
{
    let signed = seq!['+'] + s;
    assert(signed.skip(1) =~= s);
    if s.len() > 0 && s[0] == '+' {
        lemma_no_digit_no_value(s, 0, radix);
    }
}

/// A text with a character that is no digit has no value.
proof fn lemma_no_digit_no_value(s: Seq<char>, i: int, radix: nat)
    requires
        0 <= i < s.len(),
        digit_value(s[i], radix) is None,
    ensures
        digits_value(s, radix) is None,
    decreases s.len(),
{
    if i < s.len() - 1 {
        lemma_no_digit_no_value(s.drop_last(), i, radix);
    }
}

/// A text with any character that is no digit is no number.
pub proof fn only_digits_are_numbers(s: Seq<char>, i: int, radix: nat)
    requires
        0 < i < s.len() || (i == 0 < s.len() && s[0] != '+'),
        digit_value(s[i], radix) is None,
    ensures
        unsigned_value(s, radix) is None,
{
    if s[0] == '+' {
        assert(s.skip(1)[i - 1] == s[i]);
        lemma_no_digit_no_value(s.skip(1), i - 1, radix);
    } else {
        lemma_no_digit_no_value(s, i, radix);
    }
}

/// Leading zeros change no number, and one more digit makes it that many times larger.
pub proof fn digits_count_by_place(s: Seq<char>, c: char, radix: nat)
    requires
        2 <= radix <= 16,
        digits_value(s, radix) is Some,
        digit_value(c, radix) is Some,
    ensures
        digits_value(s.push(c), radix) == Some(
            (digits_value(s, radix)->0 * radix + digit_value(c, radix)->0) as nat,
        ),
        digits_value(seq!['0'] + s, radix) == digits_value(s, radix),
    decreases s.len(),
{
    assert(s.push(c).drop_last() =~= s);
    let padded = seq!['0'] + s;
    if s.len() == 0 {
        assert(padded.drop_last() =~= Seq::<char>::empty());
        assert(padded.last() == '0' && digit_value('0', radix) == Some(0nat));
        assert(digits_value(padded.drop_last(), radix) == Some(0nat));
        assert(0 * radix == 0) by (nonlinear_arith);
    } else {
        assert(padded.drop_last() =~= seq!['0'] + s.drop_last());
        assert(padded.last() == s.last());
        digits_count_by_place(s.drop_last(), s.last(), radix);
    }
}

/// A number is read if it is one and at most the bound, and not otherwise.
pub proof fn bounds_are_kept(s: Seq<char>, radix: nat, max: nat)
    ensures
        unsigned_value(s, radix) is None ==> bounded_value(s, radix, max) is None,
        unsigned_value(s, radix) matches Some(n) ==> (n <= max ==> bounded_value(s, radix, max)
            == Some(n)) && (n > max ==> bounded_value(s, radix, max) is None),
{
}

/// Joining the pieces of a text gives the text back, and no piece holds the separator.
pub proof fn join_undoes_split(s: Seq<char>, sep: char)
    ensures
        join(split(s, sep), sep) == s,
        forall|i: int|
            0 <= i < split(s, sep).len() ==> !(#[trigger] split(s, sep)[i]).contains(sep),
    decreases s.len(),
{
    let parts = split(s, sep);
    lemma_split_nonempty(s, sep);
    if s.len() == 0 {
        assert(parts[0] =~= s);
    } else {
        let init = s.drop_last();
        let before = split(init, sep);
        join_undoes_split(init, sep);
        lemma_split_nonempty(init, sep);
        if s.last() == sep {
            assert(parts.drop_last() =~= before);
            assert(join(parts, sep) =~= s);
            assert forall|i: int| 0 <= i < parts.len() implies !(#[trigger] parts[i]).contains(
                sep,
            ) by {
                if i < before.len() {
                    assert(parts[i] == before[i]);
                }
            }
        } else {
            let n = before.len() - 1;
            assert(parts.drop_last() =~= before.drop_last());
            assert(parts.last() == before.last().push(s.last()));
            assert(before.last() == before[n]);
            assert(parts.len() == before.len());
            if n == 0 {
                assert(join(parts, sep) == before[0].push(s.last()));
            } else {
                let front = join(before.drop_last(), sep).push(sep);
                assert(join(before, sep) == front + before.last());
                assert(join(parts, sep) == front + before.last().push(s.last()));
                assert(front + before.last().push(s.last()) =~= (front + before.last()).push(
                    s.last(),
                ));
            }
            assert(init.push(s.last()) =~= s);
            assert forall|i: int| 0 <= i < parts.len() implies !(#[trigger] parts[i]).contains(
                sep,
            ) by {
                assert(!before[i].contains(sep));
                if i < n {
                    assert(parts[i] == before[i]);
                } else {
                    assert forall|k: int| 0 <= k < parts[i].len() implies parts[i][k] != sep by {
                        if k < before[i].len() {
                            assert(parts[i][k] == before[i][k]);
                        }
                    }
                }
            }
        }
    }
}

/// Trimming takes off white space alone, as much as there is at either end: what is
/// left is a part of the text with nothing but white space on both sides, and neither
/// begins nor ends with any.
pub proof fn trimming_takes_white_space(s: Seq<char>) -> (r: (Seq<char>, Seq<char>))
    ensures
        s == r.0 + trimmed(s) + r.1,
        forall|i: int| 0 <= i < r.0.len() ==> is_white(#[trigger] r.0[i]),
        forall|i: int| 0 <= i < r.1.len() ==> is_white(#[trigger] r.1[i]),
        trimmed(s).len() > 0 ==> !is_white(trimmed(s)[0]) && !is_white(trimmed(s).last()),
        trimmed(s).len() == 0 <==> is_blank(s),
    decreases s.len(),
{
    if s.len() == 0 {
        assert(s =~= Seq::<char>::empty() + trimmed(s) + Seq::<char>::empty());
        (Seq::empty(), Seq::empty())
    } else if is_white(s[0]) {
        let rest = s.drop_first();
        let (a, b) = trimming_takes_white_space(rest);
        let front = seq![s[0]] + a;
        assert(s =~= seq![s[0]] + rest);
        assert(s =~= front + trimmed(s) + b);
        assert(is_blank(s) <==> is_blank(rest)) by {
            if is_blank(rest) {
                assert forall|i: int| 0 <= i < s.len() implies is_white(#[trigger] s[i]) by {
                    if i > 0 {
                        assert(rest[i - 1] == s[i]);
                    }
                }
            }
            if is_blank(s) {
                assert forall|i: int| 0 <= i < rest.len() implies is_white(#[trigger] rest[i]) by {
                    assert(rest[i] == s[i + 1]);
                }
            }
        }
        (front, b)
    } else if is_white(s.last()) {
        let rest = s.drop_last();
        let (a, b) = trimming_takes_white_space(rest);
        let back = b.push(s.last());
        assert(s =~= rest.push(s.last()));
        assert(s =~= a + trimmed(s) + back);
        assert(!is_blank(s) && !is_blank(rest)) by {
            assert(!is_white(s[0]));
            if rest.len() > 0 {
                assert(rest[0] == s[0]);
            } else {
                assert(s.last() == s[0]);
            }
        }
        (a, back)
    } else {
        assert(s =~= Seq::<char>::empty() + s + Seq::<char>::empty());
        assert(!is_white(s[0]));
        (Seq::empty(), Seq::empty())
    }
}

/// Of the ASCII characters the blank, the tab and the line and page ends are white
/// space; beyond them the fifteen others that Unicode names are.
pub proof fn white_space_is_what_unicode_names(c: char)
    ensures
        (c as int) < 0x80 ==> (is_white(c) <==> c == ' ' || c == '\t' || c == '\n' || c == '\r'
            || c as int == 0xb || c as int == 0xc),
        0x80 <= (c as int) < 0x2000 ==> (is_white(c) <==> c as int == 0x85 || c as int == 0xa0
            || c as int == 0x1680),
        0x2000 <= c as int ==> (is_white(c) <==> (c as int) <= 0x200a || c as int == 0x2028
            || c as int == 0x2029 || c as int == 0x202f || c as int == 0x205f || c as int
            == 0x3000),
{
}

/// Lower case keeps the length, changes upper-case ASCII letters alone, each to the
/// letter of the same place in the alphabet, and leaves none.
pub proof fn lower_case_keeps_the_rest(s: Seq<char>, i: int)
    requires
        0 <= i < s.len(),
    ensures
        lower_ascii(s).len() == s.len(),
        'A' <= s[i] <= 'Z' ==> lower_ascii(s)[i] as int - 'a' as int == s[i] as int - 'A' as int,
        !('A' <= s[i] <= 'Z') ==> lower_ascii(s)[i] == s[i],
        !('A' <= lower_ascii(s)[i] <= 'Z'),
        lower_ascii(lower_ascii(s)) == lower_ascii(s),
{
    assert forall|k: int| 0 <= k < s.len() implies lower_char(lower_char(#[trigger] s[k]))
        == lower_char(s[k]) by {}
    assert(lower_ascii(lower_ascii(s)) =~= lower_ascii(s));
}

/// A text counts as filled exactly if trimming leaves something of it.
pub proof fn filled_texts_say_something(o: Option<Seq<char>>)
    ensures
        filled_of(o) matches Some(s) ==> o == Some(s) && trimmed(s).len() > 0,
        o matches Some(s) ==> trimmed(s).len() > 0 ==> filled_of(o) == o,
        o is None ==> filled_of(o) is None,
{
    if o is Some {
        let r = trimming_takes_white_space(o->0);
    }
}

/// A number in decimal is all digits, with no zero in front but that of zero itself.
pub proof fn decimals_are_digits(n: nat, i: int)
    requires
        0 <= i < decimal(n).len(),
    ensures
        '0' <= decimal(n)[i] <= '9',
        n > 0 ==> decimal(n)[0] != '0',
        decimal(n).len() > 0,
    decreases n,
{
    lemma_decimal_nonempty(n);
    if n >= 10 {
        let hi = decimal(n / 10);
        lemma_decimal_nonempty(n / 10);
        decimals_are_digits(n / 10, 0);
        assert(decimal(n)[0] == hi[0]);
        if i < hi.len() {
            decimals_are_digits(n / 10, i);
            assert(decimal(n)[i] == hi[i]);
        }
    }
}

/// A number in decimal has a digit.
pub proof fn lemma_decimal_nonempty(n: nat)
    ensures
        decimal(n).len() > 0,
{
}

} // verus!
