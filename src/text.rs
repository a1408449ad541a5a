//! Lines, trimming and decimal numbers, as the text forms of grids and boards use them.

use vstd::prelude::*;

verus! {

/// The characters that Unicode marks as white space.
pub open spec fn is_ws(c: char) -> bool {
    let u = c as u32;
    (9 <= u <= 13) || u == 32 || u == 0x85 || u == 0xA0 || u == 0x1680 || (0x2000 <= u <= 0x200A)
        || u == 0x2028 || u == 0x2029 || u == 0x202F || u == 0x205F || u == 0x3000
}

pub fn is_whitespace(c: char) -> (r: bool)
    ensures
        r == is_ws(c),
{
    let u = c as u32;
    (9 <= u && u <= 13) || u == 32 || u == 0x85 || u == 0xA0 || u == 0x1680 || (0x2000 <= u && u
        <= 0x200A) || u == 0x2028 || u == 0x2029 || u == 0x202F || u == 0x205F || u == 0x3000
}

pub open spec fn trim_start(s: Seq<char>) -> Seq<char>
    decreases s.len(),
{
    if s.len() > 0 && is_ws(s[0]) {
        trim_start(s.subrange(1, s.len() as int))
    } else {
        s
    }
}

pub open spec fn trim_end(s: Seq<char>) -> Seq<char>
    decreases s.len(),
{
    if s.len() > 0 && is_ws(s.last()) {
        trim_end(s.drop_last())
    } else {
        s
    }
}

/// The text without white space at either end.
pub open spec fn trim(s: Seq<char>) -> Seq<char> {
    trim_start(trim_end(s))
}

/// The pieces of a text between line breaks; a text that ends in a line break ends with an
/// empty piece.
pub open spec fn split_lines(s: Seq<char>) -> Seq<Seq<char>>
    decreases s.len(),
{
    if s.len() == 0 {
        seq![Seq::empty()]
    } else {
        let p = split_lines(s.drop_last());
        if s.last() == '\n' {
            p.push(Seq::empty())
        } else {
            p.update(p.len() - 1, p.last().push(s.last()))
        }
    }
}

/// The pieces, trimmed, without those left empty.
pub open spec fn clean(ls: Seq<Seq<char>>) -> Seq<Seq<char>>
    decreases ls.len(),
{
    if ls.len() == 0 {
        Seq::empty()
    } else if trim(ls.last()).len() > 0 {
        clean(ls.drop_last()).push(trim(ls.last()))
    } else {
        clean(ls.drop_last())
    }
}

/// The non-blank lines of a text, each trimmed.
pub open spec fn text_lines(s: Seq<char>) -> Seq<Seq<char>> {
    clean(split_lines(s))
}

pub open spec fn views(v: Seq<Vec<char>>) -> Seq<Seq<char>> {
    v.map_values(|l: Vec<char>| l@)
}

pub proof fn lemma_split_nonempty(s: Seq<char>)
    ensures
        split_lines(s).len() > 0,
    decreases s.len(),
{
    if s.len() > 0 {
        lemma_split_nonempty(s.drop_last());
    }
}

/// The characters of `s[from..to]`.
pub fn chars_between(s: &Vec<char>, from: usize, to: usize) -> (r: Vec<char>)
    requires
        from <= to <= s@.len(),
    ensures
        r@ == s@.subrange(from as int, to as int),
{
    let mut r: Vec<char> = Vec::new();
    let mut i: usize = from;
    while i < to
        invariant
            from <= i <= to <= s@.len(),
            r@ == s@.subrange(from as int, i as int),
        decreases to - i,
    {
        r.push(s[i]);
        proof {
            assert(s@.subrange(from as int, i + 1) =~= s@.subrange(from as int, i as int).push(s@[i as int]));
        }
        i = i + 1;
    }
    r
}

pub fn trimmed(s: &Vec<char>) -> (r: Vec<char>)
    ensures
        r@ == trim(s@),
{
    let mut b: usize = s.len();
    assert(s@.subrange(0, b as int) =~= s@);
    while b > 0 && is_whitespace(s[b - 1])
        invariant
            b <= s@.len(),
            trim_end(s@) == trim_end(s@.subrange(0, b as int)),
        decreases b,
    {
        assert(s@.subrange(0, b as int).drop_last() =~= s@.subrange(0, b - 1));
        b = b - 1;
    }
    let ghost t = s@.subrange(0, b as int);
    assert(trim_end(t) == t);
    let mut a: usize = 0;
    while a < b && is_whitespace(s[a])
        invariant
            a <= b <= s@.len(),
            t == s@.subrange(0, b as int),
            trim_start(t) == trim_start(s@.subrange(a as int, b as int)),
        decreases b - a,
    {
        assert(s@.subrange(a as int, b as int).subrange(1, (b - a) as int) =~= s@.subrange(a + 1, b as int));
        a = a + 1;
    }
    chars_between(s, a, b)
}

/// The characters of a string slice.
pub fn chars_of(s: &str) -> (r: Vec<char>)
    ensures
        r@ == s@,
{
    let n = s.unicode_len();
    let mut r: Vec<char> = Vec::new();
    let mut i: usize = 0;
    while i < n
        invariant
            n == s@.len(),
            i <= n,
            r@ == s@.subrange(0, i as int),
        decreases n - i,
    {
        r.push(s.get_char(i));
        proof {
            assert(s@.subrange(0, i + 1) =~= s@.subrange(0, i as int).push(s@[i as int]));
        }
        i = i + 1;
    }
    assert(s@.subrange(0, n as int) =~= s@);
    r
}

/// The non-blank lines of a text, each trimmed.
pub fn lines_of(s: &Vec<char>) -> (r: Vec<Vec<char>>)
    ensures
        views(r@) == text_lines(s@),
{
    let mut done: Vec<Vec<char>> = Vec::new();
    let mut cur: Vec<char> = Vec::new();
    let mut i: usize = 0;
    proof {
        assert(s@.subrange(0, 0) =~= Seq::<char>::empty());
        assert(views(done@) =~= clean(split_lines(s@.subrange(0, 0)).drop_last()));
    }
    while i < s.len()
        invariant
            i <= s@.len(),
            split_lines(s@.subrange(0, i as int)).len() > 0,
            views(done@) == clean(split_lines(s@.subrange(0, i as int)).drop_last()),
            cur@ == split_lines(s@.subrange(0, i as int)).last(),
        decreases s@.len() - i,
    {
        let ghost pre = s@.subrange(0, i as int);
        let ghost sp = split_lines(pre);
        let c = s[i];
        assert(s@.subrange(0, i + 1).drop_last() =~= pre);
        assert(s@.subrange(0, i + 1).last() == c);
        if c == '\n' {
            let t = trimmed(&cur);
            if t.len() > 0 {
                let ghost d = done@;
                done.push(t);
                proof {
                    assert(views(done@) =~= views(d).push(t@));
                }
            }
            cur = Vec::new();
            proof {
                assert(split_lines(s@.subrange(0, i + 1)) == sp.push(Seq::empty()));
                assert(sp.push(Seq::empty()).drop_last() =~= sp);
                assert(sp.drop_last().push(sp.last()) =~= sp);
            }
        } else {
            cur.push(c);
            proof {
                let sp2 = split_lines(s@.subrange(0, i + 1));
                assert(sp2 == sp.update(sp.len() - 1, sp.last().push(c)));
                assert(sp2.drop_last() =~= sp.drop_last());
            }
        }
        i = i + 1;
    }
    let t = trimmed(&cur);
    proof {
        let sp = split_lines(s@.subrange(0, i as int));
        assert(s@.subrange(0, i as int) =~= s@);
        assert(sp.drop_last().push(sp.last()) =~= sp);
    }
    if t.len() > 0 {
        let ghost d = done@;
        done.push(t);
        proof {
            assert(views(done@) =~= views(d).push(t@));
        }
    }
    done
}

/// Relies on `String::push`: the character is appended at the end of the string.
#[verifier::external_body]
pub(crate) fn push_char(s: &mut String, c: char)
    ensures
        final(s)@ == old(s)@.push(c),
{
    s.push(c);
}

pub fn push_chars(s: &mut String, cs: &Vec<char>)
    ensures
        final(s)@ == old(s)@ + cs@,
{
    let mut i: usize = 0;
    while i < cs.len()
        invariant
            i <= cs@.len(),
            s@ == old(s)@ + cs@.subrange(0, i as int),
        decreases cs@.len() - i,
    {
        push_char(s, cs[i]);
        proof {
            assert(cs@.subrange(0, i + 1) =~= cs@.subrange(0, i as int).push(cs@[i as int]));
        }
        i = i + 1;
    }
    assert(cs@.subrange(0, cs@.len() as int) =~= cs@);
}

/// Appends the characters of `other`.
pub fn append_str(s: &mut String, other: &String)
    ensures
        final(s)@ == old(s)@ + other@,
{
    s.append(other.as_str());
}

pub open spec fn digit_char(d: nat) -> char {
    seq!['0', '1', '2', '3', '4', '5', '6', '7', '8', '9'][d as int]
}

pub open spec fn is_digit(c: char) -> bool {
    48 <= (c as u32) <= 57
}

pub open spec fn digit_value(c: char) -> nat {
    ((c as u32) - 48) as nat
}

/// The number that a run of decimal digits writes.
pub open spec fn decimal_value(s: Seq<char>) -> nat
    decreases s.len(),
{
    if s.len() == 0 {
        0
    } else {
        decimal_value(s.drop_last()) * 10 + digit_value(s.last())
    }
}

/// The decimal digits of a number, without leading zeros.
pub open spec fn nat_text(n: nat) -> Seq<char>
    decreases n,
{
    if n < 10 {
        seq![digit_char(n)]
    } else {
        nat_text(n / 10).push(digit_char(n % 10))
    }
}

pub open spec fn all_digits(s: Seq<char>) -> bool {
    forall|i: int| 0 <= i < s.len() ==> is_digit(#[trigger] s[i])
}

/// An unsigned number as text: an optional `+`, then one or more decimal digits, of a value
/// that fits in 64 bits.
pub open spec fn parse_count(s: Seq<char>) -> Option<u64> {
    let d = if s.len() > 0 && s[0] == '+' { s.subrange(1, s.len() as int) } else { s };
    if d.len() > 0 && all_digits(d) && decimal_value(d) <= u64::MAX {
        Some(decimal_value(d) as u64)
    } else {
        None
    }
}

fn digit_glyph(d: u64) -> (c: char)
    requires
        d < 10,
    ensures
        c == digit_char(d as nat),
{
    if d == 0 { '0' } else if d == 1 { '1' } else if d == 2 { '2' } else if d == 3 { '3' } else if d
        == 4 { '4' } else if d == 5 { '5' } else if d == 6 { '6' } else if d == 7 { '7' } else if d
        == 8 { '8' } else { '9' }
}

/// Appends the decimal digits of `n`.
pub fn push_decimal(s: &mut String, n: u64)
    ensures
        final(s)@ == old(s)@ + nat_text(n as nat),
    decreases n,
{
    if n >= 10 {
        push_decimal(s, n / 10);
    }
    push_char(s, digit_glyph(n % 10));
    proof {
        if n >= 10 {
            assert(nat_text(n as nat) == nat_text((n / 10) as nat).push(digit_char((n % 10) as nat)));
        }
        assert(old(s)@ + nat_text(n as nat) =~= final(s)@) by {
            if n >= 10 {
                assert((old(s)@ + nat_text((n / 10) as nat)).push(digit_char((n % 10) as nat)) =~= old(s)@ + nat_text((n / 10) as nat).push(digit_char((n % 10) as nat)));
            }
        }
    }
}

proof fn lemma_prefix_value_le(s: Seq<char>, k: int)
    requires
        0 <= k <= s.len(),
    ensures
        decimal_value(s.subrange(0, k)) <= decimal_value(s),
    decreases s.len(),
{
    if k < s.len() {
        lemma_prefix_value_le(s.drop_last(), k);
        assert(s.drop_last().subrange(0, k) =~= s.subrange(0, k));
    } else {
        assert(s.subrange(0, k) =~= s);
    }
}

/// Reads `s[from..]` as an unsigned number: see `parse_count`.
pub fn read_count(s: &Vec<char>, from: usize) -> (r: Option<u64>)
    requires
        from <= s@.len(),
    ensures
        r == parse_count(s@.subrange(from as int, s@.len() as int)),
{
    let ghost t = s@.subrange(from as int, s@.len() as int);
    let mut start = from;
    if from < s.len() && s[from] == '+' {
        start = from + 1;
    }
    let ghost d = s@.subrange(start as int, s@.len() as int);
    assert(d =~= (if t.len() > 0 && t[0] == '+' { t.subrange(1, t.len() as int) } else { t }));
    if start == s.len() {
        return None;
    }
    let mut acc: u64 = 0;
    let mut i: usize = start;
    while i < s.len()
        invariant
            start <= i <= s@.len(),
            d == s@.subrange(start as int, s@.len() as int),
            t == s@.subrange(from as int, s@.len() as int),
            d == (if t.len() > 0 && t[0] == '+' { t.subrange(1, t.len() as int) } else { t }),
            acc as nat == decimal_value(s@.subrange(start as int, i as int)),
            all_digits(s@.subrange(start as int, i as int)),
        decreases s@.len() - i,
    {
        let c = s[i];
        let u = c as u32;
        let ghost pre = s@.subrange(start as int, i as int);
        let ghost next = s@.subrange(start as int, i + 1);
        assert(next.drop_last() =~= pre);
        assert(next.last() == c);
        assert(d[i - start] == c);
        if u < 48 || u > 57 {
            assert(!is_digit(d[i - start]));
            assert(!all_digits(d));
            assert(parse_count(t) is None);
            return None;
        }
        let dv = (u - 48) as u64;
        assert(all_digits(next));
        if acc > (u64::MAX - dv) / 10 {
            proof {
                assert(decimal_value(next) == acc * 10 + dv);
                assert(acc * 10 + dv > u64::MAX) by (nonlinear_arith)
                    requires
                        acc > (u64::MAX - dv) / 10,
                        dv <= 9,
                ;
                lemma_prefix_value_le(d, (i + 1 - start) as int);
                assert(d.subrange(0, (i + 1 - start) as int) =~= next);
                assert(decimal_value(d) > u64::MAX);
                assert(parse_count(t) is None);
            }
            return None;
        }
        proof {
            assert(acc * 10 + dv <= u64::MAX) by (nonlinear_arith)
                requires
                    acc <= (u64::MAX - dv) / 10,
                    dv <= 9,
            ;
        }
        acc = acc * 10 + dv;
        i = i + 1;
    }
    assert(s@.subrange(start as int, i as int) =~= d);
    Some(acc)
}


proof fn lemma_digit(n: nat)
    requires
        n < 10,
    ensures
        is_digit(digit_char(n)),
        digit_value(digit_char(n)) == n,
        !is_ws(digit_char(n)),
        digit_char(n) != '=' && digit_char(n) != '+' && digit_char(n) != '\n',
{
    let ds = seq!['0', '1', '2', '3', '4', '5', '6', '7', '8', '9'];
    assert(digit_char(n) == ds[n as int]);
    if n == 0 {
    } else if n == 1 {
    } else if n == 2 {
    } else if n == 3 {
    } else if n == 4 {
    } else if n == 5 {
    } else if n == 6 {
    } else if n == 7 {
    } else if n == 8 {
    } else {
    }
}

/// The digits of a number read back as that number; they are digits only, so the text
/// holds no white space, `=`, `+` or line break.
pub proof fn lemma_nat_text(n: nat)
    ensures
        nat_text(n).len() > 0,
        all_digits(nat_text(n)),
        decimal_value(nat_text(n)) == n,
        forall|i: int| 0 <= i < nat_text(n).len() ==> {
            &&& !is_ws(#[trigger] nat_text(n)[i])
            &&& nat_text(n)[i] != '='
            &&& nat_text(n)[i] != '+'
            &&& nat_text(n)[i] != '\n'
        },
    decreases n,
{
    if n < 10 {
        lemma_digit(n);
        let t = seq![digit_char(n)];
        assert(t.drop_last() =~= Seq::<char>::empty());
        assert(decimal_value(Seq::<char>::empty()) == 0);
        assert(decimal_value(t) == decimal_value(t.drop_last()) * 10 + digit_value(t.last()));
    } else {
        lemma_nat_text(n / 10);
        lemma_digit(n % 10);
        let t = nat_text(n);
        assert(t.drop_last() =~= nat_text(n / 10));
        assert(t.last() == digit_char(n % 10));
        assert(decimal_value(t) == decimal_value(t.drop_last()) * 10 + digit_value(t.last()));
        assert(n / 10 * 10 + n % 10 == n);
    }
}

/// Appending characters without a line break extends the last piece.
pub proof fn lemma_split_append(t: Seq<char>, line: Seq<char>)
    requires
        forall|k: int| 0 <= k < line.len() ==> #[trigger] line[k] != '\n',
    ensures
        split_lines(t + line) == split_lines(t).drop_last().push(split_lines(t).last() + line),
    decreases line.len(),
{
    lemma_split_nonempty(t);
    let st = split_lines(t);
    if line.len() == 0 {
        assert(t + line =~= t);
        assert(st.last() + line =~= st.last());
        assert(st.drop_last().push(st.last()) =~= st);
    } else {
        let l2 = line.drop_last();
        let c = line.last();
        lemma_split_append(t, l2);
        assert((t + line).drop_last() =~= t + l2);
        assert((t + line).last() == c);
        lemma_split_nonempty(t + l2);
        let p = split_lines(t + l2);
        assert(p == st.drop_last().push(st.last() + l2));
        assert(split_lines(t + line) == p.update(p.len() - 1, p.last().push(c)));
        assert((st.last() + l2).push(c) =~= st.last() + line);
        assert(p.update(p.len() - 1, p.last().push(c)) =~= st.drop_last().push(st.last() + line));
    }
}

/// A line without white space at either end is its own trim.
pub proof fn lemma_trim_plain(l: Seq<char>)
    requires
        l.len() > 0,
        !is_ws(l[0]),
        !is_ws(l.last()),
    ensures
        trim(l) == l,
{
}

/// Cleaning pieces that are already trimmed and non-empty, followed by an empty piece,
/// gives the pieces back.
pub proof fn lemma_clean_plain(ls: Seq<Seq<char>>)
    requires
        forall|i: int| 0 <= i < ls.len() ==> (#[trigger] ls[i]).len() > 0 && !is_ws(ls[i][0]) && !is_ws(ls[i].last()),
    ensures
        clean(ls.push(Seq::empty())) == ls,
    decreases ls.len(),
{
    assert(ls.push(Seq::empty()).drop_last() =~= ls);
    assert(trim(Seq::<char>::empty()) =~= Seq::<char>::empty());
    lemma_clean_plain_rec(ls);
}

proof fn lemma_clean_plain_rec(ls: Seq<Seq<char>>)
    requires
        forall|i: int| 0 <= i < ls.len() ==> (#[trigger] ls[i]).len() > 0 && !is_ws(ls[i][0]) && !is_ws(ls[i].last()),
    ensures
        clean(ls) == ls,
    decreases ls.len(),
{
    if ls.len() > 0 {
        lemma_clean_plain_rec(ls.drop_last());
        lemma_trim_plain(ls.last());
        assert(ls.drop_last().push(ls.last()) =~= ls);
    }
}

/// Every line that `clean` keeps is non-empty.
pub proof fn lemma_clean_nonempty(ls: Seq<Seq<char>>)
    ensures
        forall|i: int| 0 <= i < clean(ls).len() ==> (#[trigger] clean(ls)[i]).len() > 0,
    decreases ls.len(),
{
    if ls.len() > 0 {
        lemma_clean_nonempty(ls.drop_last());
        let c = clean(ls.drop_last());
        if trim(ls.last()).len() > 0 {
            assert(clean(ls) == c.push(trim(ls.last())));
            assert forall|i: int| 0 <= i < clean(ls).len() implies (#[trigger] clean(ls)[i]).len() > 0 by {
                if i < c.len() {
                    assert(clean(ls)[i] == c[i]);
                }
            }
        } else {
            assert(clean(ls) == c);
        }
    }
}


/// The pieces of a text between occurrences of `sep`.
pub open spec fn split_on(s: Seq<char>, sep: char) -> Seq<Seq<char>>
    decreases s.len(),
{
    if s.len() == 0 {
        seq![Seq::empty()]
    } else {
        let p = split_on(s.drop_last(), sep);
        if s.last() == sep {
            p.push(Seq::empty())
        } else {
            p.update(p.len() - 1, p.last().push(s.last()))
        }
    }
}

pub proof fn lemma_split_on_nonempty(s: Seq<char>, sep: char)
    ensures
        split_on(s, sep).len() > 0,
    decreases s.len(),
{
    if s.len() > 0 {
        lemma_split_on_nonempty(s.drop_last(), sep);
    }
}

/// The pieces of `s` between occurrences of `sep`.
pub fn split_chars(s: &Vec<char>, sep: char) -> (r: Vec<Vec<char>>)
    ensures
        views(r@) == split_on(s@, sep),
{
    let mut done: Vec<Vec<char>> = Vec::new();
    let mut cur: Vec<char> = Vec::new();
    let mut i: usize = 0;
    proof {
        assert(s@.subrange(0, 0) =~= Seq::<char>::empty());
        assert(views(done@) =~= split_on(s@.subrange(0, 0), sep).drop_last());
    }
    while i < s.len()
        invariant
            i <= s@.len(),
            split_on(s@.subrange(0, i as int), sep).len() > 0,
            views(done@) == split_on(s@.subrange(0, i as int), sep).drop_last(),
            cur@ == split_on(s@.subrange(0, i as int), sep).last(),
        decreases s@.len() - i,
    {
        let ghost sp = split_on(s@.subrange(0, i as int), sep);
        let c = s[i];
        assert(s@.subrange(0, i + 1).drop_last() =~= s@.subrange(0, i as int));
        assert(s@.subrange(0, i + 1).last() == c);
        if c == sep {
            let ghost d = done@;
            done.push(cur);
            cur = Vec::new();
            proof {
                assert(views(done@) =~= views(d).push(sp.last()));
                assert(sp.push(Seq::empty()).drop_last() =~= sp);
                assert(sp.drop_last().push(sp.last()) =~= sp);
            }
        } else {
            cur.push(c);
            proof {
                let sp2 = split_on(s@.subrange(0, i + 1), sep);
                assert(sp2 == sp.update(sp.len() - 1, sp.last().push(c)));
                assert(sp2.drop_last() =~= sp.drop_last());
            }
        }
        i = i + 1;
    }
    let ghost d = done@;
    done.push(cur);
    proof {
        let sp = split_on(s@.subrange(0, i as int), sep);
        assert(s@.subrange(0, i as int) =~= s@);
        assert(views(done@) =~= views(d).push(sp.last()));
        assert(sp.drop_last().push(sp.last()) =~= sp);
    }
    done
}

} // verus!
