//! Character-level building blocks: decimal numbers, booleans and
//! delimiter splitting, each with its mathematical meaning.
use vstd::prelude::*;
use vstd::std_specs::iter::IteratorSpec;

verus! {

/// The character of a decimal digit `d < 10`.
pub open spec fn digit_char(d: nat) -> char {
    if d == 0 { '0' } else if d == 1 { '1' } else if d == 2 { '2' } else if d == 3 { '3' }
    else if d == 4 { '4' } else if d == 5 { '5' } else if d == 6 { '6' } else if d == 7 { '7' }
    else if d == 8 { '8' } else { '9' }
}

/// The digit that a character stands for, if it is one of `0`..`9`.
pub open spec fn char_digit(c: char) -> Option<nat> {
    if c == '0' { Some(0) } else if c == '1' { Some(1) } else if c == '2' { Some(2) }
    else if c == '3' { Some(3) } else if c == '4' { Some(4) } else if c == '5' { Some(5) }
    else if c == '6' { Some(6) } else if c == '7' { Some(7) } else if c == '8' { Some(8) }
    else if c == '9' { Some(9) } else { None }
}

pub open spec fn digit_val(c: char) -> nat {
    match char_digit(c) {
        Some(d) => d,
        None => 0,
    }
}

pub open spec fn is_digits(s: Seq<char>) -> bool {
    forall|i: int| 0 <= i < s.len() ==> (#[trigger] char_digit(s[i])) is Some
}

/// The number written by a string of digits, most significant first.
pub open spec fn value_of(s: Seq<char>) -> nat
    decreases s.len(),
{
    if s.len() == 0 {
        0
    } else {
        value_of(s.drop_last()) * 10 + digit_val(s.last())
    }
}

/// The shortest decimal form of `n`.
pub open spec fn decimal(n: nat) -> Seq<char>
    decreases n,
{
    if n < 10 {
        seq![digit_char(n)]
    } else {
        decimal(n / 10).push(digit_char(n % 10))
    }
}

/// A non-empty run of digits and its value.
pub open spec fn parse_nat(s: Seq<char>) -> Option<nat> {
    if s.len() > 0 && is_digits(s) {
        Some(value_of(s))
    } else {
        None
    }
}

/// The text of a signed integer: a minus sign before negative values.
pub open spec fn int_text(x: int) -> Seq<char> {
    if x < 0 {
        seq!['-'].add(decimal((-x) as nat))
    } else {
        decimal(x as nat)
    }
}

/// An unsigned integer: digits with an optional leading plus sign.
pub open spec fn parse_unsigned(s: Seq<char>) -> Option<nat> {
    if s.len() > 0 && s[0] == '+' {
        parse_nat(s.drop_first())
    } else {
        parse_nat(s)
    }
}

/// A signed integer: digits with an optional leading plus or minus sign.
pub open spec fn parse_int(s: Seq<char>) -> Option<int> {
    if s.len() > 0 && s[0] == '-' {
        match parse_nat(s.drop_first()) {
            Some(v) => Some(-v),
            None => None,
        }
    } else if s.len() > 0 && s[0] == '+' {
        match parse_nat(s.drop_first()) {
            Some(v) => Some(v as int),
            None => None,
        }
    } else {
        match parse_nat(s) {
            Some(v) => Some(v as int),
            None => None,
        }
    }
}

pub open spec fn parse_u32(s: Seq<char>) -> Option<u32> {
    match parse_unsigned(s) {
        Some(v) => if v <= u32::MAX { Some(v as u32) } else { None },
        None => None,
    }
}

pub open spec fn parse_i64(s: Seq<char>) -> Option<i64> {
    match parse_int(s) {
        Some(v) => if i64::MIN <= v <= i64::MAX { Some(v as i64) } else { None },
        None => None,
    }
}

pub open spec fn bool_text(b: bool) -> Seq<char> {
    if b { seq!['t', 'r', 'u', 'e'] } else { seq!['f', 'a', 'l', 's', 'e'] }
}

pub open spec fn parse_bool(s: Seq<char>) -> Option<bool> {
    if s == bool_text(true) {
        Some(true)
    } else if s == bool_text(false) {
        Some(false)
    } else {
        None
    }
}

pub proof fn lemma_digit_round_trip(d: nat)
    requires
        d < 10,
    ensures
        char_digit(digit_char(d)) == Some(d),
{
}

/// Every decimal form is a non-empty run of digits that denotes its number.
pub proof fn lemma_decimal(n: nat)
    ensures
        decimal(n).len() >= 1,
        is_digits(decimal(n)),
        value_of(decimal(n)) == n,
    decreases n,
{
    if n < 10 {
        lemma_digit_round_trip(n);
        assert(decimal(n).drop_last() =~= Seq::<char>::empty());
        assert(value_of(decimal(n)) == value_of(decimal(n).drop_last()) * 10 + digit_val(decimal(n).last()));
    } else {
        lemma_decimal(n / 10);
        lemma_digit_round_trip(n % 10);
        let s = decimal(n);
        assert(s.drop_last() =~= decimal(n / 10));
        assert(s.last() == digit_char(n % 10));
        assert(value_of(s) == value_of(decimal(n / 10)) * 10 + digit_val(s.last()));
        assert((n / 10) * 10 + n % 10 == n);
        assert(forall|i: int| 0 <= i < s.len() ==> (#[trigger] char_digit(s[i])) is Some) by {
            assert forall|i: int| 0 <= i < s.len() implies (#[trigger] char_digit(s[i])) is Some by {
                if i < s.len() - 1 {
                    assert(s[i] == decimal(n / 10)[i]);
                }
            }
        }
    }
}

/// A prefix of a run of digits never denotes more than the whole run.
pub proof fn lemma_prefix_value_le(s: Seq<char>, k: int)
    requires
        0 <= k <= s.len(),
    ensures
        value_of(s.subrange(0, k)) <= value_of(s),
    decreases s.len() - k,
{
    if k == s.len() {
        assert(s.subrange(0, k) =~= s);
    } else {
        lemma_prefix_value_le(s, k + 1);
        assert(s.subrange(0, k + 1).drop_last() =~= s.subrange(0, k));
    }
}

pub proof fn lemma_parse_u32(n: u32)
    ensures
        parse_u32(decimal(n as nat)) == Some(n),
{
    lemma_decimal(n as nat);
    assert(char_digit(decimal(n as nat)[0]) is Some);
}

pub proof fn lemma_parse_i64(x: i64)
    ensures
        parse_i64(int_text(x as int)) == Some(x),
{
    if x < 0 {
        lemma_decimal((-x) as nat);
        assert((seq!['-'].add(decimal((-x) as nat))).drop_first() =~= decimal((-x) as nat));
    } else {
        lemma_decimal(x as nat);
        let c = decimal(x as nat)[0];
        assert(char_digit(c) is Some);
    }
}

pub proof fn lemma_parse_bool(b: bool)
    ensures
        parse_bool(bool_text(b)) == Some(b),
{
    assert(bool_text(true) != bool_text(false)) by {
        assert(bool_text(true).len() != bool_text(false).len());
    }
}

pub open spec fn free_of(s: Seq<char>, d: char) -> bool {
    forall|i: int| 0 <= i < s.len() ==> s[i] != d
}

/// The pieces of `s` between occurrences of `d`; always at least one piece.
pub open spec fn split(s: Seq<char>, d: char) -> Seq<Seq<char>>
    decreases s.len(),
{
    if s.len() == 0 {
        seq![Seq::empty()]
    } else {
        let r = split(s.drop_last(), d);
        if s.last() == d {
            r.push(Seq::empty())
        } else {
            r.update(r.len() - 1, r.last().push(s.last()))
        }
    }
}

/// The pieces written one after another with `d` between each two.
pub open spec fn join(fs: Seq<Seq<char>>, d: char) -> Seq<char>
    decreases fs.len(),
{
    if fs.len() == 0 {
        Seq::empty()
    } else if fs.len() == 1 {
        fs[0]
    } else {
        join(fs.drop_last(), d) + seq![d] + fs.last()
    }
}

pub proof fn lemma_split_len(s: Seq<char>, d: char)
    ensures
        split(s, d).len() >= 1,
    decreases s.len(),
{
    if s.len() > 0 {
        lemma_split_len(s.drop_last(), d);
    }
}

/// A piece free of the delimiter splits into itself alone.
pub proof fn lemma_split_free(b: Seq<char>, d: char)
    requires
        free_of(b, d),
    ensures
        split(b, d) == seq![b],
    decreases b.len(),
{
    if b.len() == 0 {
        assert(b =~= Seq::<char>::empty());
        assert(split(b, d) =~= seq![b]);
    } else {
        lemma_split_free(b.drop_last(), d);
        assert(b.drop_last().push(b.last()) =~= b);
        assert(b.last() != d);
        assert(split(b.drop_last(), d).last() == b.drop_last());
        assert(split(b, d) =~= seq![b]);
    }
}

/// Appending a delimiter and a delimiter-free piece appends one piece.
pub proof fn lemma_split_append(a: Seq<char>, b: Seq<char>, d: char)
    requires
        free_of(b, d),
    ensures
        split(a + seq![d] + b, d) == split(a, d).push(b),
    decreases b.len(),
{
    let s = a + seq![d] + b;
    if b.len() == 0 {
        assert(b =~= Seq::<char>::empty());
        assert(s.drop_last() =~= a);
        assert(split(a, d).push(b) =~= split(a, d).push(Seq::empty()));
    } else {
        let b1 = b.drop_last();
        lemma_split_append(a, b1, d);
        assert(s.drop_last() =~= a + seq![d] + b1);
        assert(b1.push(b.last()) =~= b);
        lemma_split_len(a, d);
        assert(split(s, d) =~= split(a, d).push(b));
    }
}

/// Joining delimiter-free pieces and splitting again gives the pieces back.
pub proof fn lemma_split_join(fs: Seq<Seq<char>>, d: char)
    requires
        fs.len() >= 1,
        forall|i: int| 0 <= i < fs.len() ==> free_of(#[trigger] fs[i], d),
    ensures
        split(join(fs, d), d) == fs,
    decreases fs.len(),
{
    if fs.len() == 1 {
        lemma_split_free(fs[0], d);
        assert(seq![fs[0]] =~= fs);
    } else {
        let init = fs.drop_last();
        assert forall|i: int| 0 <= i < init.len() implies free_of(#[trigger] init[i], d) by {
            assert(init[i] == fs[i]);
        }
        lemma_split_join(init, d);
        assert(free_of(fs[fs.len() - 1], d));
        lemma_split_append(join(init, d), fs.last(), d);
        assert(init.push(fs.last()) =~= fs);
    }
}

/// Relies on `String::push`: the character is added at the end.
#[verifier::external_body]
pub(crate) fn push_char(s: &mut String, c: char)
    ensures
        final(s)@ == old(s)@.push(c),
{
    s.push(c)
}

/// The characters of `s`, in order.
pub(crate) fn chars_of(s: &str) -> (r: Vec<char>)
    ensures
        r@ == s@,
{
    broadcast use vstd::string::group_string_axioms;
    let mut it = s.chars();
    let mut r: Vec<char> = Vec::new();
    loop
        invariant
            IteratorSpec::obeys_prophetic_iter_laws(&it),
            r@ + IteratorSpec::remaining(&it) == s@,
            IteratorSpec::decrease(&it) is Some,
        decreases IteratorSpec::decrease(&it)->0,
    {
        match it.next() {
            Some(c) => {
                r.push(c);
                assert(r@ + IteratorSpec::remaining(&it) =~= s@);
            },
            None => {
                assert(r@ + IteratorSpec::remaining(&it) =~= r@);
                return r;
            },
        }
    }
}

/// The string made of the given characters.
pub fn string_of(v: &Vec<char>) -> (r: String)
    ensures
        r@ == v@,
{
    let mut r = String::new();
    let mut i: usize = 0;
    while i < v.len()
        invariant
            i <= v.len(),
            r@ == v@.subrange(0, i as int),
        decreases v.len() - i,
    {
        push_char(&mut r, v[i]);
        i += 1;
        assert(r@ =~= v@.subrange(0, i as int));
    }
    assert(v@.subrange(0, v.len() as int) =~= v@);
    r
}

/// Cuts `s` at every `d`.
pub fn split_chars(s: &Vec<char>, d: char) -> (r: Vec<Vec<char>>)
    ensures
        r.deep_view() == split(s@, d),
        r@.len() == split(s@, d).len(),
        forall|i: int| 0 <= i < r@.len() ==> #[trigger] r@[i]@ == split(s@, d)[i],
{
    let mut fields: Vec<Vec<char>> = Vec::new();
    let mut cur: Vec<char> = Vec::new();
    let mut i: usize = 0;
    assert(fields.deep_view().push(cur@) =~= split(s@.subrange(0, 0), d));
    while i < s.len()
        invariant
            i <= s.len(),
            fields.deep_view().push(cur@) == split(s@.subrange(0, i as int), d),
        decreases s.len() - i,
    {
        let c = s[i];
        let ghost pre = s@.subrange(0, i as int);
        let ghost next = s@.subrange(0, i as int + 1);
        assert(next.drop_last() =~= pre);
        assert(next.last() == c);
        proof {
            lemma_split_len(pre, d);
        }
        if c == d {
            let ghost old_fields = fields.deep_view();
            let ghost cur_view = cur@;
            assert(cur.deep_view() =~= cur_view);
            fields.push(cur);
            cur = Vec::new();
            assert(fields.deep_view() =~= old_fields.push(cur_view));
            assert(fields.deep_view().push(cur@) =~= split(next, d));
        } else {
            cur.push(c);
            assert(fields.deep_view().push(cur@) =~= split(next, d));
        }
        i += 1;
    }
    assert(s@.subrange(0, s.len() as int) =~= s@);
    let ghost old_fields = fields.deep_view();
    let ghost cur_view = cur@;
    assert(cur.deep_view() =~= cur_view);
    fields.push(cur);
    assert(fields.deep_view() =~= old_fields.push(cur_view));
    assert forall|i: int| 0 <= i < fields@.len() implies #[trigger] fields@[i]@ == split(s@, d)[i] by {
        assert(fields@[i].deep_view() =~= fields@[i]@);
        assert(fields.deep_view()[i] == fields@[i].deep_view());
    }
    fields
}

fn digit_char_exec(d: u64) -> (c: char)
    requires
        d < 10,
    ensures
        c == digit_char(d as nat),
{
    if d == 0 { '0' } else if d == 1 { '1' } else if d == 2 { '2' } else if d == 3 { '3' }
    else if d == 4 { '4' } else if d == 5 { '5' } else if d == 6 { '6' } else if d == 7 { '7' }
    else if d == 8 { '8' } else { '9' }
}

fn char_digit_exec(c: char) -> (r: Option<u64>)
    ensures
        r == (match char_digit(c) {
            Some(d) => Some(d as u64),
            None => None,
        }),
{
    if c == '0' { Some(0) } else if c == '1' { Some(1) } else if c == '2' { Some(2) }
    else if c == '3' { Some(3) } else if c == '4' { Some(4) } else if c == '5' { Some(5) }
    else if c == '6' { Some(6) } else if c == '7' { Some(7) } else if c == '8' { Some(8) }
    else if c == '9' { Some(9) } else { None }
}

/// Appends the decimal form of `n`.
pub fn push_decimal(out: &mut Vec<char>, n: u64)
    ensures
        final(out)@ == old(out)@ + decimal(n as nat),
    decreases n,
{
    if n >= 10 {
        push_decimal(out, n / 10);
    }
    out.push(digit_char_exec(n % 10));
    assert(final(out)@ =~= old(out)@ + decimal(n as nat));
}

/// Appends the text of a signed integer.
pub fn push_int(out: &mut Vec<char>, x: i64)
    ensures
        final(out)@ == old(out)@ + int_text(x as int),
{
    if x < 0 {
        out.push('-');
        let m: u64 = if x == i64::MIN { 9223372036854775808u64 } else { (-x) as u64 };
        push_decimal(out, m);
    } else {
        push_decimal(out, x as u64);
    }
    assert(final(out)@ =~= old(out)@ + int_text(x as int));
}

/// Appends `true` or `false`.
pub fn push_bool(out: &mut Vec<char>, b: bool)
    ensures
        final(out)@ == old(out)@ + bool_text(b),
{
    if b {
        out.push('t'); out.push('r'); out.push('u'); out.push('e');
    } else {
        out.push('f'); out.push('a'); out.push('l'); out.push('s'); out.push('e');
    }
    assert(final(out)@ =~= old(out)@ + bool_text(b));
}

/// Reads the digits of `s` from `start` on, when they denote at most `limit`.
fn parse_digits_from(s: &Vec<char>, start: usize, limit: u64) -> (r: Option<u64>)
    requires
        start <= s.len(),
        9 <= limit <= 9223372036854775808u64,
    ensures
        r == (match parse_nat(s@.subrange(start as int, s.len() as int)) {
            Some(v) => if v <= limit { Some(v as u64) } else { None },
            None => None,
        }),
{
    let ghost t = s@.subrange(start as int, s.len() as int);
    if start == s.len() {
        return None;
    }
    let mut acc: u64 = 0;
    let mut i: usize = start;
    assert(t.subrange(0, 0) =~= Seq::<char>::empty());
    while i < s.len()
        invariant
            start <= i <= s.len(),
            t == s@.subrange(start as int, s.len() as int),
            9 <= limit <= 9223372036854775808u64,
            acc == value_of(t.subrange(0, i - start)),
            acc <= limit,
            is_digits(t.subrange(0, i - start)),
        decreases s.len() - i,
    {
        let k: usize = i - start;
        let ghost pre = t.subrange(0, k as int);
        let ghost next = t.subrange(0, k as int + 1);
        assert(next.drop_last() =~= pre);
        assert(next.last() == s@[i as int]);
        match char_digit_exec(s[i]) {
            None => {
                assert(t[k as int] == s@[i as int]);
                return None;
            },
            Some(d) => {
                assert(value_of(next) == acc * 10 + d);
                if acc > (limit - d) / 10 {
                    assert(acc * 10 + d > limit) by (nonlinear_arith)
                        requires acc > (limit - d) / 10, d < 10, limit >= 9;
                    proof {
                        lemma_prefix_value_le(t, k as int + 1);
                    }
                    return None;
                }
                assert(acc * 10 + d <= limit) by (nonlinear_arith)
                    requires acc <= (limit - d) / 10, d < 10, limit >= 9;
                acc = acc * 10 + d;
                assert forall|j: int| 0 <= j < next.len() implies (#[trigger] char_digit(next[j])) is Some by {
                    if j < k {
                        assert(next[j] == pre[j]);
                    }
                }
            },
        }
        i += 1;
    }
    assert(t.subrange(0, t.len() as int) =~= t);
    Some(acc)
}

/// Reads an unsigned 32-bit number written in decimal.
pub fn parse_u32_chars(s: &Vec<char>) -> (r: Option<u32>)
    ensures
        r == parse_u32(s@),
{
    let start: usize = if s.len() > 0 && s[0] == '+' { 1 } else { 0 };
    if start == 1 {
        assert(s@.subrange(1, s.len() as int) =~= s@.drop_first());
    } else {
        assert(s@.subrange(0, s.len() as int) =~= s@);
    }
    match parse_digits_from(s, start, 4294967295u64) {
        Some(v) => Some(v as u32),
        None => None,
    }
}

/// Reads a signed 64-bit number written in decimal.
pub fn parse_i64_chars(s: &Vec<char>) -> (r: Option<i64>)
    ensures
        r == parse_i64(s@),
{
    if s.len() > 0 && s[0] == '-' {
        assert(s@.subrange(1, s.len() as int) =~= s@.drop_first());
        match parse_digits_from(s, 1, 9223372036854775808u64) {
            Some(v) => {
                if v == 9223372036854775808u64 {
                    Some(i64::MIN)
                } else {
                    Some(-(v as i64))
                }
            },
            None => None,
        }
    } else {
        let start: usize = if s.len() > 0 && s[0] == '+' { 1 } else { 0 };
        if start == 1 {
            assert(s@.subrange(1, s.len() as int) =~= s@.drop_first());
        } else {
            assert(s@.subrange(0, s.len() as int) =~= s@);
        }
        match parse_digits_from(s, start, 9223372036854775807u64) {
            Some(v) => Some(v as i64),
            None => None,
        }
    }
}

/// Reads `true` or `false`.
pub fn parse_bool_chars(s: &Vec<char>) -> (r: Option<bool>)
    ensures
        r == parse_bool(s@),
{
    if s.len() == 4 && s[0] == 't' && s[1] == 'r' && s[2] == 'u' && s[3] == 'e' {
        assert(s@ =~= bool_text(true));
        Some(true)
    } else if s.len() == 5 && s[0] == 'f' && s[1] == 'a' && s[2] == 'l' && s[3] == 's' && s[4] == 'e' {
        assert(s@ =~= bool_text(false));
        Some(false)
    } else {
        assert(s@ != bool_text(true) ==> s@.len() != 4 || s@[0] != 't' || s@[1] != 'r' || s@[2] != 'u' || s@[3] != 'e');
        None
    }
}

/// Appends the characters of `s`.
pub fn push_str(out: &mut Vec<char>, s: &str)
    ensures
        final(out)@ == old(out)@ + s@,
{
    let v = chars_of(s);
    let mut k: usize = 0;
    while k < v.len()
        invariant
            k <= v.len(),
            v@ == s@,
            out@ == old(out)@ + v@.subrange(0, k as int),
        decreases v.len() - k,
    {
        out.push(v[k]);
        k += 1;
        assert(out@ =~= old(out)@ + v@.subrange(0, k as int));
    }
    assert(v@.subrange(0, v.len() as int) =~= v@);
}

/// Pieces free of a character join into a text free of it, when it is not the delimiter.
pub proof fn lemma_join_free(fs: Seq<Seq<char>>, d: char, c: char)
    requires
        c != d,
        forall|i: int| 0 <= i < fs.len() ==> free_of(#[trigger] fs[i], c),
    ensures
        free_of(join(fs, d), c),
    decreases fs.len(),
{
    if fs.len() > 1 {
        let init = fs.drop_last();
        assert forall|i: int| 0 <= i < init.len() implies free_of(#[trigger] init[i], c) by {
            assert(init[i] == fs[i]);
        }
        lemma_join_free(init, d, c);
        assert(free_of(fs[fs.len() - 1], c));
        let j = join(fs, d);
        let a = join(init, d);
        assert forall|i: int| 0 <= i < j.len() implies j[i] != c by {
            if i < a.len() {
                assert(j[i] == a[i]);
            } else if i > a.len() {
                assert(j[i] == fs.last()[i - a.len() - 1]);
            }
        }
    }
}

/// The first piece of a text that does not start with the delimiter starts
/// with the text's first character.
pub proof fn lemma_split_first(s: Seq<char>, d: char)
    requires
        s.len() > 0,
        s[0] != d,
    ensures
        split(s, d)[0].len() > 0,
        split(s, d)[0][0] == s[0],
    decreases s.len(),
{
    lemma_split_len(s.drop_last(), d);
    if s.len() > 1 {
        lemma_split_first(s.drop_last(), d);
    }
}

} // verus!
