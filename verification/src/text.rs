//! Character-level helpers on strings: splitting, line breaking and
//! decimal integers, each stated over the string's sequence of chars.
use vstd::prelude::*;

verus! {

/// Appends one character to an owned string (std `String::push`).
#[verifier::external_body]
pub(crate) fn push_char(s: &mut String, c: char)
    ensures
        final(s)@ == old(s)@.push(c),
{
    s.push(c);
}

/// The character sequences of a sequence of strings.
pub open spec fn views(v: Seq<String>) -> Seq<Seq<char>> {
    v.map_values(|s: String| s@)
}

/// The characters of `s` with every occurrence of `c` taken out.
pub open spec fn without_char(s: Seq<char>, c: char) -> Seq<char>
    decreases s.len(),
{
    if s.len() == 0 {
        s
    } else if s.last() == c {
        without_char(s.drop_last(), c)
    } else {
        without_char(s.drop_last(), c).push(s.last())
    }
}

/// The pieces of `s` between occurrences of `sep`, as `str::split` with a
/// char pattern yields them: empty pieces included, and always at least one.
pub open spec fn split_pieces(s: Seq<char>, sep: char) -> Seq<Seq<char>>
    decreases s.len(),
{
    if s.len() == 0 {
        seq![Seq::<char>::empty()]
    } else {
        let rest = split_pieces(s.drop_last(), sep);
        if s.last() == sep {
            rest.push(Seq::<char>::empty())
        } else {
            rest.update(rest.len() - 1, rest.last().push(s.last()))
        }
    }
}

/// A line without the carriage return that ended it.
pub open spec fn strip_cr(line: Seq<char>) -> Seq<char> {
    if line.len() > 0 && line.last() == '\r' {
        line.drop_last()
    } else {
        line
    }
}

/// The lines of `s` as `str::lines` yields them: split at `\n`, a `\r`
/// just before a `\n` dropped, and no empty last line after a final `\n`.
pub open spec fn line_pieces(s: Seq<char>) -> Seq<Seq<char>> {
    let pieces = split_pieces(s, '\n');
    if s.len() == 0 {
        Seq::empty()
    } else if s.last() == '\n' {
        pieces.drop_last().map_values(|p: Seq<char>| strip_cr(p))
    } else {
        pieces.drop_last().map_values(|p: Seq<char>| strip_cr(p)).push(pieces.last())
    }
}

pub proof fn lemma_split_nonempty(s: Seq<char>, sep: char)
    ensures
        split_pieces(s, sep).len() >= 1,
    decreases s.len(),
{
    if s.len() > 0 {
        lemma_split_nonempty(s.drop_last(), sep);
    }
}

/// No piece of a split holds the separator.
pub proof fn lemma_split_pieces_free_of_sep(s: Seq<char>, sep: char)
    ensures
        forall|i: int, j: int|
            0 <= i < split_pieces(s, sep).len() && 0 <= j < split_pieces(s, sep)[i].len()
                ==> split_pieces(s, sep)[i][j] != sep,
    decreases s.len(),
{
    lemma_split_nonempty(s, sep);
    if s.len() > 0 {
        lemma_split_nonempty(s.drop_last(), sep);
        lemma_split_pieces_free_of_sep(s.drop_last(), sep);
        let rest = split_pieces(s.drop_last(), sep);
        assert forall|i: int, j: int|
            0 <= i < split_pieces(s, sep).len() && 0 <= j < split_pieces(s, sep)[i].len()
            implies split_pieces(s, sep)[i][j] != sep by {
            if i < rest.len() - 1 {
                assert(split_pieces(s, sep)[i] == rest[i]);
            } else if i == rest.len() - 1 {
                if s.last() != sep {
                    assert(split_pieces(s, sep)[i] == rest.last().push(s.last()));
                    if j < rest.last().len() {
                        assert(rest[i][j] != sep);
                    }
                }
            }
        }
    }
}

pub proof fn lemma_views_push(v: Seq<String>, x: String)
    ensures
        views(v.push(x)) == views(v).push(x@),
{
    assert(views(v.push(x)) =~= views(v).push(x@));
}

/// Removes every occurrence of `c` from `s`.
pub fn remove_char(s: &str, c: char) -> (r: String)
    ensures
        r@ == without_char(s@, c),
{
    let mut r = String::new();
    let ghost full = s@;
    for x in it: s.chars()
        invariant
            full == s@,
            it.seq() == full,
            r@ == without_char(full.take(it.index() as int), c),
    {
        proof {
            assert(full.take(it.index() + 1).drop_last() == full.take(it.index() as int));
        }
        if x != c {
            push_char(&mut r, x);
        }
    }
    proof {
        assert(full.take(full.len() as int) == full);
    }
    r
}

/// Splits `s` at every occurrence of `sep` (as `str::split` does).
pub fn split_on(s: &str, sep: char) -> (r: Vec<String>)
    ensures
        views(r@) == split_pieces(s@, sep),
{
    let mut done: Vec<String> = Vec::new();
    let mut cur = String::new();
    let ghost full = s@;
    proof {
        assert(full.take(0) =~= Seq::<char>::empty());
    }
    for x in it: s.chars()
        invariant
            full == s@,
            it.seq() == full,
            split_pieces(full.take(it.index() as int), sep) == views(done@).push(cur@),
    {
        let ghost i = it.index() as int;
        proof {
            let pre = full.take(i + 1);
            assert(pre.drop_last() == full.take(i));
            assert(pre.last() == x);
            lemma_split_nonempty(full.take(i), sep);
        }
        if x == sep {
            let piece = cur;
            let ghost prev = done@;
            done.push(piece);
            cur = String::new();
            proof {
                assert(views(done@) =~= views(prev).push(piece@));
            }
        } else {
            push_char(&mut cur, x);
        }
        proof {
            assert(split_pieces(full.take(i + 1), sep) =~= views(done@).push(cur@));
        }
    }
    let ghost before = done@;
    done.push(cur);
    proof {
        assert(full.take(full.len() as int) == full);
        assert(views(done@) =~= views(before).push(cur@));
    }
    done
}

/// The piece of `s` after the last occurrence of `sep` (all of `s` when
/// `sep` does not occur), as `s.split(sep).last()` gives it.
pub fn last_piece(s: &str, sep: char) -> (r: String)
    ensures
        r@ == split_pieces(s@, sep).last(),
{
    let mut cur = String::new();
    let ghost full = s@;
    proof {
        assert(full.take(0) =~= Seq::<char>::empty());
    }
    for x in it: s.chars()
        invariant
            full == s@,
            it.seq() == full,
            split_pieces(full.take(it.index() as int), sep).last() == cur@,
    {
        let ghost i = it.index() as int;
        proof {
            let pre = full.take(i + 1);
            assert(pre.drop_last() == full.take(i));
            lemma_split_nonempty(full.take(i), sep);
        }
        if x == sep {
            cur = String::new();
        } else {
            push_char(&mut cur, x);
        }
    }
    proof {
        assert(full.take(full.len() as int) == full);
    }
    cur
}


/// Drops the carriage return that ends `s`, if there is one.
pub fn strip_cr_string(s: &String) -> (r: String)
    ensures
        r@ == strip_cr(s@),
{
    let n = s.as_str().unicode_len();
    let mut r = String::new();
    let ghost full = s@;
    let mut i: usize = 0;
    for x in it: s.as_str().chars()
        invariant
            full == s@,
            n == full.len(),
            it.seq() == full,
            i == it.index(),
            i < n ==> r@ == full.take(i as int),
            i == n ==> r@ == strip_cr(full),
    {
        proof {
            assert(full.take(i + 1) == full.take(i as int).push(x));
        }
        if !(i + 1 == n && x == '\r') {
            push_char(&mut r, x);
        }
        proof {
            if i + 1 == n {
                assert(full.take(i as int) == full.drop_last());
                assert(full.take(i + 1) == full);
            }
        }
        i = i + 1;
    }
    r
}

/// Breaks `s` into lines (as `str::lines` does).
pub fn split_lines(s: &str) -> (r: Vec<String>)
    ensures
        views(r@) == line_pieces(s@),
{
    let n = s.unicode_len();
    if n == 0 {
        let r: Vec<String> = Vec::new();
        proof {
            assert(views(r@) =~= line_pieces(s@));
        }
        return r;
    }
    let pieces = split_on(s, '\n');
    let ends_with_newline = s.get_char(n - 1) == '\n';
    proof {
        lemma_split_nonempty(s@, '\n');
    }
    let k = pieces.len() - 1;
    let ghost sp = split_pieces(s@, '\n');
    let mut out: Vec<String> = Vec::new();
    for i in 0..k
        invariant
            k + 1 == pieces.len(),
            views(pieces@) == sp,
            views(out@) == sp.take(i as int).map_values(|p: Seq<char>| strip_cr(p)),
    {
        let line = strip_cr_string(&pieces[i]);
        let ghost prev = out@;
        out.push(line);
        proof {
            assert(pieces@[i as int]@ == sp[i as int]);
            lemma_views_push(prev, line);
            assert(views(out@) =~= sp.take(i + 1).map_values(|p: Seq<char>| strip_cr(p)));
        }
    }
    proof {
        assert(sp.take(k as int) =~= sp.drop_last());
    }
    if !ends_with_newline {
        let last = pieces[k].clone();
        let ghost prev = out@;
        out.push(last);
        proof {
            assert(pieces@[k as int]@ == sp.last());
            assert(views(out@) =~= views(prev).push(sp.last()));
        }
    }
    out
}

/// An ASCII decimal digit.
pub open spec fn is_digit(c: char) -> bool {
    '0' <= c <= '9'
}

/// Every character of `d` is an ASCII decimal digit.
pub open spec fn all_digits(d: Seq<char>) -> bool {
    forall|i: int| 0 <= i < d.len() ==> is_digit(#[trigger] d[i])
}

/// The value of the decimal numeral `d`.
pub open spec fn digits_value(d: Seq<char>) -> int
    decreases d.len(),
{
    if d.len() == 0 {
        0
    } else {
        10 * digits_value(d.drop_last()) + (d.last() as int - '0' as int)
    }
}

/// What `i64::from_str` reads from `s`: an optional `+` or `-` sign, then
/// one or more ASCII digits and nothing else, with a value that fits.
pub open spec fn parse_decimal(s: Seq<char>) -> Option<int> {
    let neg = s.len() > 0 && s[0] == '-';
    let signed = s.len() > 0 && (s[0] == '-' || s[0] == '+');
    let d = if signed { s.drop_first() } else { s };
    let v = if neg { -digits_value(d) } else { digits_value(d) };
    if d.len() == 0 || !all_digits(d) || v < i64::MIN || v > i64::MAX {
        None
    } else {
        Some(v)
    }
}

/// A numeral is worth at least as much as each of its prefixes.
pub proof fn lemma_digits_value_prefix(d: Seq<char>, k: int)
    requires
        all_digits(d),
        0 <= k <= d.len(),
    ensures
        0 <= digits_value(d.take(k)) <= digits_value(d),
    decreases d.len(),
{
    if d.len() > 0 {
        assert(all_digits(d.drop_last())) by {
            assert forall|i: int| 0 <= i < d.drop_last().len() implies is_digit(
                #[trigger] d.drop_last()[i],
            ) by {
                assert(d.drop_last()[i] == d[i]);
            }
        }
        assert(is_digit(d[d.len() - 1]));
        if k == d.len() {
            assert(d.take(k) == d);
            lemma_digits_value_prefix(d.drop_last(), 0);
        } else {
            assert(d.take(k) == d.drop_last().take(k));
            lemma_digits_value_prefix(d.drop_last(), k);
        }
    } else {
        assert(d.take(k) == d);
    }
}

/// Reads a decimal `i64` (as `str::parse::<i64>` does).
pub fn parse_i64(s: &str) -> (r: Option<i64>)
    ensures
        match parse_decimal(s@) {
            Some(v) => r == Some(v as i64),
            None => r is None,
        },
{
    let n = s.unicode_len();
    let mut neg = false;
    let mut start: usize = 0;
    if n > 0 {
        let c0 = s.get_char(0);
        if c0 == '-' {
            neg = true;
            start = 1;
        } else if c0 == '+' {
            start = 1;
        }
    }
    let ghost d = if s@.len() > 0 && (s@[0] == '-' || s@[0] == '+') {
        s@.drop_first()
    } else {
        s@
    };
    proof {
        assert(d =~= s@.subrange(start as int, n as int));
    }
    if start == n {
        return None;
    }
    let mut acc: i128 = 0;
    let mut i = start;
    while i < n
        invariant
            start <= i <= n,
            n == s@.len(),
            d == (if s@.len() > 0 && (s@[0] == '-' || s@[0] == '+') {
                s@.drop_first()
            } else {
                s@
            }),
            neg == (s@.len() > 0 && s@[0] == '-'),
            d == s@.subrange(start as int, n as int),
            all_digits(d.take(i - start)),
            acc == digits_value(d.take(i - start)),
            0 <= acc <= 9223372036854775808,
        decreases n - i,
    {
        let c = s.get_char(i);
        let ghost k = i - start;
        proof {
            assert(d[k] == c);
            assert(d.take(k + 1).drop_last() == d.take(k));
            assert(d.take(k + 1).last() == c);
        }
        if !('0' <= c && c <= '9') {
            proof {
                assert(!is_digit(d[k]));
                assert(!all_digits(d));
                assert(parse_decimal(s@) is None);
            }
            return None;
        }
        let dv = (c as u32 - '0' as u32) as i128;
        let next = acc * 10 + dv;
        proof {
            assert(dv == c as int - '0' as int);
            assert(next == digits_value(d.take(k + 1)));
            assert(all_digits(d.take(k + 1))) by {
                assert forall|j: int| 0 <= j < d.take(k + 1).len() implies is_digit(
                    #[trigger] d.take(k + 1)[j],
                ) by {
                    if j < k {
                        assert(d.take(k + 1)[j] == d.take(k)[j]);
                    }
                }
            }
        }
        if next > 9223372036854775808 {
            proof {
                if all_digits(d) {
                    lemma_digits_value_prefix(d, k + 1);
                }
                assert(parse_decimal(s@) is None);
            }
            return None;
        }
        acc = next;
        i = i + 1;
    }
    proof {
        assert(d.take(n - start) == d);
    }
    if neg {
        Some((0 - acc) as i64)
    } else if acc <= 9223372036854775807 {
        Some(acc as i64)
    } else {
        None
    }
}


/// The ASCII digit for `d` in `0..10`.
pub open spec fn digit_char(d: int) -> char {
    if d == 0 {
        '0'
    } else if d == 1 {
        '1'
    } else if d == 2 {
        '2'
    } else if d == 3 {
        '3'
    } else if d == 4 {
        '4'
    } else if d == 5 {
        '5'
    } else if d == 6 {
        '6'
    } else if d == 7 {
        '7'
    } else if d == 8 {
        '8'
    } else {
        '9'
    }
}

/// The decimal numeral of `n`, without leading zeros.
pub open spec fn nat_text(n: nat) -> Seq<char>
    decreases n,
{
    if n < 10 {
        seq![digit_char(n as int)]
    } else {
        nat_text(n / 10).push(digit_char((n % 10) as int))
    }
}

/// `x` written in decimal, as `Display` writes an integer: a `-` before
/// the digits of a negative number.
pub open spec fn decimal_text(x: int) -> Seq<char> {
    if x < 0 {
        seq!['-'].add(nat_text((-x) as nat))
    } else {
        nat_text(x as nat)
    }
}

proof fn lemma_digit_char(d: int)
    requires
        0 <= d < 10,
    ensures
        is_digit(digit_char(d)),
        digit_char(d) as int - '0' as int == d,
{
}

proof fn lemma_nat_text(n: nat)
    ensures
        nat_text(n).len() >= 1,
        all_digits(nat_text(n)),
        digits_value(nat_text(n)) == n,
        nat_text(n)[0] != '-' && nat_text(n)[0] != '+',
    decreases n,
{
    if n < 10 {
        lemma_digit_char(n as int);
        assert(nat_text(n).drop_last() =~= Seq::<char>::empty());
        assert(digits_value(Seq::<char>::empty()) == 0);
        assert(nat_text(n).last() == digit_char(n as int));
    } else {
        lemma_digit_char((n % 10) as int);
        lemma_nat_text(n / 10);
        let t = nat_text(n);
        assert(t.drop_last() == nat_text(n / 10));
        assert forall|i: int| 0 <= i < t.len() implies is_digit(#[trigger] t[i]) by {
            if i < t.len() - 1 {
                assert(t[i] == nat_text(n / 10)[i]);
            }
        }
        assert(t[0] == nat_text(n / 10)[0]);
        assert(t.last() == digit_char((n % 10) as int));
        assert(digits_value(t) == 10 * digits_value(nat_text(n / 10)) + (n % 10));
        assert(n == 10 * (n / 10) + n % 10);
    }
}

/// Reading back what is written: a decimal `i64` read from its text is the
/// same number.
pub proof fn lemma_decimal_round_trip(x: i64)
    ensures
        parse_decimal(decimal_text(x as int)) == Some(x as int),
{
    let t = decimal_text(x as int);
    if x < 0 {
        lemma_nat_text((-x) as nat);
        assert(t.drop_first() == nat_text((-x) as nat));
    } else {
        lemma_nat_text(x as nat);
    }
}

/// The ASCII digit for `d`.
fn digit_of(d: u64) -> (c: char)
    requires
        d < 10,
    ensures
        c == digit_char(d as int),
{
    match d {
        0 => '0',
        1 => '1',
        2 => '2',
        3 => '3',
        4 => '4',
        5 => '5',
        6 => '6',
        7 => '7',
        8 => '8',
        _ => '9',
    }
}

/// Writes `x` in decimal (as `x.to_string()` does for an `i64`).
pub fn i64_text(x: i64) -> (r: String)
    ensures
        r@ == decimal_text(x as int),
{
    let neg = x < 0;
    let mut m: u64 = if neg {
        (0i128 - x as i128) as u64
    } else {
        x as u64
    };
    let ghost mag: nat = if neg {
        (-(x as int)) as nat
    } else {
        x as nat
    };
    let mut digits: Vec<char> = Vec::new();
    // digits holds the last digits of mag, least significant first
    loop
        invariant_except_break
            nat_text(mag) == nat_text(m as nat) + digits@.reverse(),
        invariant
            mag == (if neg { -(x as int) } else { x as int }),
        ensures
            nat_text(mag) == digits@.reverse(),
        decreases m,
    {
        let c = digit_of(m % 10);
        let ghost before = digits@;
        digits.push(c);
        if m < 10 {
            assert(c == digit_char(m as int));
            assert(nat_text(m as nat) == seq![c]);
            assert(digits@.reverse() =~= seq![c] + before.reverse());
            break ;
        }
        assert(c == digit_char((m % 10) as int));
        assert(nat_text(m as nat) == nat_text((m / 10) as nat).push(c));
        assert(digits@.reverse() =~= seq![c] + before.reverse());
        m = m / 10;
    }
    let mut r = String::new();
    if neg {
        push_char(&mut r, '-');
    }
    let ghost prefix = r@;
    let mut i = digits.len();
    while i > 0
        invariant
            i <= digits@.len(),
            r@ == prefix + digits@.reverse().take(digits@.len() - i),
        decreases i,
    {
        let ghost k = digits@.len() - i;
        assert(digits@.reverse()[k] == digits@[i - 1]);
        assert(digits@.reverse().take(k + 1) == digits@.reverse().take(k).push(digits@[i - 1]));
        push_char(&mut r, digits[i - 1]);
        i = i - 1;
    }
    assert(digits@.reverse().take(digits@.len() as int) == digits@.reverse());
    if neg {
        assert(prefix == seq!['-']);
    } else {
        assert(prefix =~= Seq::<char>::empty());
    }
    r
}


/// Taking out a character that does not occur changes nothing.
pub proof fn lemma_without_char_absent(s: Seq<char>, c: char)
    requires
        forall|i: int| 0 <= i < s.len() ==> s[i] != c,
    ensures
        without_char(s, c) == s,
    decreases s.len(),
{
    if s.len() > 0 {
        assert(s[s.len() - 1] != c);
        lemma_without_char_absent(s.drop_last(), c);
        assert(s.drop_last().push(s.last()) =~= s);
    }
}

/// A string without the separator is a single piece.
pub proof fn lemma_split_absent(s: Seq<char>, sep: char)
    requires
        forall|i: int| 0 <= i < s.len() ==> s[i] != sep,
    ensures
        split_pieces(s, sep) == seq![s],
    decreases s.len(),
{
    if s.len() == 0 {
        assert(s =~= Seq::<char>::empty());
    } else {
        assert(s[s.len() - 1] != sep);
        lemma_split_absent(s.drop_last(), sep);
        assert(s.drop_last().push(s.last()) =~= s);
        assert(split_pieces(s, sep) =~= seq![s]);
    }
}

/// Splitting `a`, the separator and `b` gives the pieces of `a` followed
/// by those of `b`.
pub proof fn lemma_split_join(a: Seq<char>, b: Seq<char>, sep: char)
    ensures
        split_pieces(a + seq![sep] + b, sep) == split_pieces(a, sep) + split_pieces(b, sep),
    decreases b.len(),
{
    let t = a + seq![sep] + b;
    lemma_split_nonempty(a, sep);
    if b.len() == 0 {
        assert(t.drop_last() =~= a);
        assert(t.last() == sep);
        assert(split_pieces(b, sep) == seq![Seq::<char>::empty()]);
        assert(split_pieces(t, sep) =~= split_pieces(a, sep) + split_pieces(b, sep));
    } else {
        let b1 = b.drop_last();
        lemma_split_join(a, b1, sep);
        lemma_split_nonempty(b1, sep);
        assert(t.drop_last() =~= a + seq![sep] + b1);
        assert(t.last() == b.last());
        let pa = split_pieces(a, sep);
        let pb1 = split_pieces(b1, sep);
        let rest = pa + pb1;
        if b.last() == sep {
            assert(split_pieces(t, sep) =~= pa + split_pieces(b, sep));
        } else {
            assert(rest.last() == pb1.last());
            assert(split_pieces(t, sep) =~= pa + split_pieces(b, sep));
        }
    }
}

} // verus!
