//! Escaping of task names: the field delimiter, the newline character and
//! the two-character newline escape are replaced by sentinel tokens inside a
//! record, so that a record is one line with seven fields.
use vstd::prelude::*;
use crate::text::free_of;

verus! {

/// Stands for a comma inside an encoded name.
pub open spec fn comma_token() -> Seq<char> {
    seq!['<', '@', '^', '_', 'f', 'a', 'k', 'e', '_', 'c', 'o', 'm', 'm', 'a', '_', '$', '#', '>']
}

/// Stands for the two characters `\n` inside an encoded name.
pub open spec fn newline_token() -> Seq<char> {
    seq!['<', '@', '^', '_', 'f', 'a', 'k', 'e', '_', 'n', 'e', 'w', 'l', 'i', 'n', 'e', '_', '$', '#', '>']
}

/// Stands for a newline character inside an encoded name.
pub open spec fn linefeed_token() -> Seq<char> {
    seq!['<', '@', '^', '_', 'f', 'a', 'k', 'e', '_', 'l', 'i', 'n', 'e', 'f', 'e', 'e', 'd', '_', '$', '#', '>']
}

pub open spec fn escaped_newline() -> Seq<char> {
    seq!['\\', 'n']
}

/// `p` occurs in `s` at position `i`.
pub open spec fn starts_at(s: Seq<char>, i: int, p: Seq<char>) -> bool {
    0 <= i && i + p.len() <= s.len() && s.subrange(i, i + p.len()) == p
}

pub open spec fn contains(s: Seq<char>, p: Seq<char>) -> bool {
    exists|i: int| #[trigger] starts_at(s, i, p)
}

/// A name as it stands inside a record.
pub open spec fn escape(s: Seq<char>) -> Seq<char>
    decreases s.len(),
{
    if s.len() == 0 {
        Seq::empty()
    } else if s[0] == ',' {
        comma_token() + escape(s.drop_first())
    } else if s[0] == '\n' {
        linefeed_token() + escape(s.drop_first())
    } else if starts_at(s, 0, escaped_newline()) {
        newline_token() + escape(s.subrange(2, s.len() as int))
    } else {
        seq![s[0]] + escape(s.drop_first())
    }
}

/// A name read back from a record: each sentinel token becomes what it stands for.
pub open spec fn unescape(s: Seq<char>) -> Seq<char>
    decreases s.len(),
{
    if s.len() == 0 {
        Seq::empty()
    } else if starts_at(s, 0, comma_token()) {
        seq![','] + unescape(s.subrange(18, s.len() as int))
    } else if starts_at(s, 0, newline_token()) {
        escaped_newline() + unescape(s.subrange(20, s.len() as int))
    } else if starts_at(s, 0, linefeed_token()) {
        seq!['\n'] + unescape(s.subrange(21, s.len() as int))
    } else {
        seq![s[0]] + unescape(s.drop_first())
    }
}

/// A name that holds none of the sentinel tokens.
pub open spec fn is_plain_name(s: Seq<char>) -> bool {
    !contains(s, comma_token()) && !contains(s, newline_token()) && !contains(s, linefeed_token())
}

proof fn lemma_tokens()
    ensures
        comma_token().len() == 18,
        newline_token().len() == 20,
        comma_token()[0] == '<',
        newline_token()[0] == '<',
        comma_token()[9] != newline_token()[9],
        linefeed_token().len() == 21,
        linefeed_token()[0] == '<',
        linefeed_token()[9] != comma_token()[9],
        linefeed_token()[9] != newline_token()[9],
        forall|i: int| 1 <= i < 18 ==> #[trigger] comma_token()[i] != '<',
        forall|i: int| 1 <= i < 20 ==> #[trigger] newline_token()[i] != '<',
        forall|i: int| 1 <= i < 21 ==> #[trigger] linefeed_token()[i] != '<',
        free_of(comma_token(), ','),
        free_of(newline_token(), ','),
        free_of(linefeed_token(), ','),
        free_of(comma_token(), '\n'),
        free_of(newline_token(), '\n'),
        free_of(linefeed_token(), '\n'),
{
    let c = comma_token();
    let n = newline_token();
    let l = linefeed_token();
    assert forall|i: int| 0 <= i < 21 implies #[trigger] l[i] != ',' && l[i] != '\n' && (i >= 1 ==> l[i] != '<') by {
        if i < 10 { } else { }
    }
    assert forall|i: int| 0 <= i < 18 implies #[trigger] c[i] != ',' && c[i] != '\n' && (i >= 1 ==> c[i] != '<') by {
        if i < 9 { } else { }
    }
    assert forall|i: int| 0 <= i < 20 implies #[trigger] n[i] != ',' && n[i] != '\n' && (i >= 1 ==> n[i] != '<') by {
        if i < 10 { } else { }
    }
}

/// An escaped name never holds the delimiter.
pub proof fn lemma_escape_free(s: Seq<char>)
    ensures
        free_of(escape(s), ','),
    decreases s.len(),
{
    lemma_tokens();
    if s.len() == 0 {
    } else if s[0] == ',' || s[0] == '\n' {
        lemma_escape_free(s.drop_first());
    } else if starts_at(s, 0, escaped_newline()) {
        lemma_escape_free(s.subrange(2, s.len() as int));
    } else {
        lemma_escape_free(s.drop_first());
    }
}

/// An escaped name never holds a newline.
pub proof fn lemma_escape_no_newline(s: Seq<char>)
    ensures
        free_of(escape(s), '\n'),
    decreases s.len(),
{
    lemma_tokens();
    if s.len() == 0 {
    } else if s[0] == ',' || s[0] == '\n' {
        lemma_escape_no_newline(s.drop_first());
    } else if starts_at(s, 0, escaped_newline()) {
        lemma_escape_no_newline(s.subrange(2, s.len() as int));
    } else {
        lemma_escape_no_newline(s.drop_first());
        let e = escape(s.drop_first());
        assert forall|i: int| 0 <= i < e.len() + 1 implies (seq![s[0]] + e)[i] != '\n' by {
            if i > 0 {
                assert((seq![s[0]] + e)[i] == e[i - 1]);
            }
        }
    }
}

/// An escaped text that begins with `w`, where `w` has no `<`, comes from a
/// name that begins with `w`.
proof fn lemma_escape_prefix(t: Seq<char>, w: Seq<char>)
    requires
        forall|i: int| 0 <= i < w.len() ==> #[trigger] w[i] != '<',
        starts_at(escape(t), 0, w),
    ensures
        starts_at(t, 0, w),
    decreases w.len(),
{
    lemma_tokens();
    if w.len() == 0 {
        assert(t.subrange(0, 0) =~= w);
    } else {
        let e = escape(t);
        assert(e[0] == w[0]);
        if t.len() == 0 {
        } else if t[0] == ',' {
            assert(e[0] == comma_token()[0]);
        } else if t[0] == '\n' {
            assert(e[0] == linefeed_token()[0]);
        } else if starts_at(t, 0, escaped_newline()) {
            assert(e[0] == newline_token()[0]);
        } else {
            let t1 = t.drop_first();
            let w1 = w.drop_first();
            assert(e == seq![t[0]] + escape(t1));
            assert(escape(t1).subrange(0, w1.len() as int) =~= w1) by {
                assert forall|k: int| 0 <= k < w1.len() implies escape(t1)[k] == w1[k] by {
                    assert(e[k + 1] == escape(t1)[k]);
                    assert(e.subrange(0, w.len() as int)[k + 1] == w[k + 1]);
                }
            }
            lemma_escape_prefix(t1, w1);
            assert(t.subrange(0, w.len() as int) =~= w) by {
                assert forall|k: int| 0 <= k < w.len() implies t[k] == w[k] by {
                    if k > 0 {
                        assert(t1.subrange(0, w1.len() as int)[k - 1] == w1[k - 1]);
                    }
                }
            }
        }
    }
}

proof fn lemma_contains_tail(s: Seq<char>, k: int, p: Seq<char>)
    requires
        0 <= k <= s.len(),
        contains(s.subrange(k, s.len() as int), p),
    ensures
        contains(s, p),
{
    let t = s.subrange(k, s.len() as int);
    let i = choose|i: int| #[trigger] starts_at(t, i, p);
    assert(t.subrange(i, i + p.len()) =~= s.subrange(i + k, i + k + p.len()));
    assert(starts_at(s, i + k, p));
}

proof fn lemma_head_token(s: Seq<char>, p: Seq<char>)
    requires
        s.len() >= 1,
        s[0] == '<',
        p.len() >= 1,
        p[0] == '<',
        forall|i: int| 1 <= i < p.len() ==> #[trigger] p[i] != '<',
        starts_at(seq![s[0]] + escape(s.drop_first()), 0, p),
    ensures
        contains(s, p),
{
    let e = seq![s[0]] + escape(s.drop_first());
    let w = p.drop_first();
    assert(starts_at(escape(s.drop_first()), 0, w)) by {
        assert(escape(s.drop_first()).subrange(0, w.len() as int) =~= w) by {
            assert forall|k: int| 0 <= k < w.len() implies escape(s.drop_first())[k] == w[k] by {
                assert(e[k + 1] == escape(s.drop_first())[k]);
                assert(e.subrange(0, p.len() as int)[k + 1] == p[k + 1]);
            }
        }
    }
    lemma_escape_prefix(s.drop_first(), w);
    assert(s.subrange(0, p.len() as int) =~= p) by {
        assert forall|k: int| 0 <= k < p.len() implies s[k] == p[k] by {
            if k > 0 {
                assert(s.drop_first().subrange(0, w.len() as int)[k - 1] == w[k - 1]);
            }
        }
    }
    assert(starts_at(s, 0, p));
}

/// Unescaping undoes escaping on every name that holds no sentinel token.
pub proof fn lemma_unescape_escape(s: Seq<char>)
    requires
        is_plain_name(s),
    ensures
        unescape(escape(s)) == s,
    decreases s.len(),
{
    lemma_tokens();
    let c = comma_token();
    let n = newline_token();
    let l = linefeed_token();
    if s.len() == 0 {
    } else if s[0] == ',' {
        let rest = s.drop_first();
        if contains(rest, c) { lemma_contains_tail(s, 1, c); }
        if contains(rest, n) { lemma_contains_tail(s, 1, n); }
        if contains(rest, l) { lemma_contains_tail(s, 1, l); }
        lemma_unescape_escape(rest);
        let e = c + escape(rest);
        assert(e.subrange(0, 18) =~= c);
        assert(e.subrange(18, e.len() as int) =~= escape(rest));
        assert(seq![','] + rest =~= s);
    } else if s[0] == '\n' {
        let rest = s.drop_first();
        if contains(rest, c) { lemma_contains_tail(s, 1, c); }
        if contains(rest, n) { lemma_contains_tail(s, 1, n); }
        if contains(rest, l) { lemma_contains_tail(s, 1, l); }
        lemma_unescape_escape(rest);
        let e = l + escape(rest);
        assert(e.subrange(0, 21) =~= l);
        assert(e[9] == l[9]);
        assert(!starts_at(e, 0, c)) by {
            if starts_at(e, 0, c) {
                assert(e.subrange(0, 18)[9] == c[9]);
            }
        }
        assert(!starts_at(e, 0, n)) by {
            if starts_at(e, 0, n) {
                assert(e.subrange(0, 20)[9] == n[9]);
            }
        }
        assert(e.subrange(21, e.len() as int) =~= escape(rest));
        assert(seq!['\n'] + rest =~= s);
    } else if starts_at(s, 0, escaped_newline()) {
        let rest = s.subrange(2, s.len() as int);
        if contains(rest, c) { lemma_contains_tail(s, 2, c); }
        if contains(rest, n) { lemma_contains_tail(s, 2, n); }
        if contains(rest, l) { lemma_contains_tail(s, 2, l); }
        lemma_unescape_escape(rest);
        let e = n + escape(rest);
        assert(e.subrange(0, 20) =~= n);
        assert(e[9] == n[9]);
        assert(!starts_at(e, 0, c)) by {
            if starts_at(e, 0, c) {
                assert(e.subrange(0, 18)[9] == c[9]);
            }
        }
        assert(e.subrange(20, e.len() as int) =~= escape(rest));
        assert(escaped_newline() + rest =~= s);
    } else {
        let rest = s.drop_first();
        if contains(rest, c) { lemma_contains_tail(s, 1, c); }
        if contains(rest, n) { lemma_contains_tail(s, 1, n); }
        if contains(rest, l) { lemma_contains_tail(s, 1, l); }
        lemma_unescape_escape(rest);
        let e = seq![s[0]] + escape(rest);
        if starts_at(e, 0, c) {
            assert(e.subrange(0, 18)[0] == c[0]);
            lemma_head_token(s, c);
        }
        if starts_at(e, 0, n) {
            assert(e.subrange(0, 20)[0] == n[0]);
            lemma_head_token(s, n);
        }
        if starts_at(e, 0, l) {
            assert(e.subrange(0, 21)[0] == l[0]);
            lemma_head_token(s, l);
        }
        assert(e.drop_first() =~= escape(rest));
        assert(seq![s[0]] + rest =~= s);
    }
}

fn comma_token_vec() -> (v: Vec<char>)
    ensures
        v@ == comma_token(),
{
    let v = vec!['<', '@', '^', '_', 'f', 'a', 'k', 'e', '_', 'c', 'o', 'm', 'm', 'a', '_', '$', '#', '>'];
    assert(v@ =~= comma_token());
    v
}

fn newline_token_vec() -> (v: Vec<char>)
    ensures
        v@ == newline_token(),
{
    let v = vec!['<', '@', '^', '_', 'f', 'a', 'k', 'e', '_', 'n', 'e', 'w', 'l', 'i', 'n', 'e', '_', '$', '#', '>'];
    assert(v@ =~= newline_token());
    v
}

fn linefeed_token_vec() -> (v: Vec<char>)
    ensures
        v@ == linefeed_token(),
{
    let v = vec!['<', '@', '^', '_', 'f', 'a', 'k', 'e', '_', 'l', 'i', 'n', 'e', 'f', 'e', 'e', 'd', '_', '$', '#', '>'];
    assert(v@ =~= linefeed_token());
    v
}

fn starts_at_exec(s: &Vec<char>, i: usize, p: &Vec<char>) -> (r: bool)
    requires
        i <= s.len(),
    ensures
        r == starts_at(s@, i as int, p@),
{
    if p.len() > s.len() - i {
        return false;
    }
    let mut k: usize = 0;
    while k < p.len()
        invariant
            i + p.len() <= s.len(),
            k <= p.len(),
            forall|j: int| 0 <= j < k ==> s@[i + j] == p@[j],
        decreases p.len() - k,
    {
        if s[i + k] != p[k] {
            assert(s@.subrange(i as int, i + p.len())[k as int] != p@[k as int]);
            return false;
        }
        k += 1;
    }
    assert(s@.subrange(i as int, i + p.len()) =~= p@);
    true
}

fn append_all(out: &mut Vec<char>, p: &Vec<char>)
    ensures
        final(out)@ == old(out)@ + p@,
{
    let mut k: usize = 0;
    while k < p.len()
        invariant
            k <= p.len(),
            out@ == old(out)@ + p@.subrange(0, k as int),
        decreases p.len() - k,
    {
        out.push(p[k]);
        k += 1;
        assert(out@ =~= old(out)@ + p@.subrange(0, k as int));
    }
    assert(p@.subrange(0, p.len() as int) =~= p@);
}

/// Appends the escaped form of a name.
pub fn push_escaped(out: &mut Vec<char>, s: &Vec<char>)
    ensures
        final(out)@ == old(out)@ + escape(s@),
{
    let comma = comma_token_vec();
    let newline = newline_token_vec();
    let linefeed = linefeed_token_vec();
    let mut i: usize = 0;
    assert(s@.subrange(0, s.len() as int) =~= s@);
    while i < s.len()
        invariant
            i <= s.len(),
            comma@ == comma_token(),
            newline@ == newline_token(),
            linefeed@ == linefeed_token(),
            out@ + escape(s@.subrange(i as int, s.len() as int)) == old(out)@ + escape(s@),
        decreases s.len() - i,
    {
        let ghost t = s@.subrange(i as int, s.len() as int);
        let ghost o = out@;
        if s[i] == ',' {
            assert(t.drop_first() =~= s@.subrange(i + 1, s.len() as int));
            append_all(out, &comma);
            i += 1;
            assert(o + escape(t) =~= out@ + escape(s@.subrange(i as int, s.len() as int)));
        } else if s[i] == '\n' {
            assert(t.drop_first() =~= s@.subrange(i + 1, s.len() as int));
            append_all(out, &linefeed);
            i += 1;
            assert(o + escape(t) =~= out@ + escape(s@.subrange(i as int, s.len() as int)));
        } else if i + 1 < s.len() && s[i] == '\\' && s[i + 1] == 'n' {
            assert(t.subrange(0, 2) =~= escaped_newline());
            assert(t.subrange(2, t.len() as int) =~= s@.subrange(i + 2, s.len() as int));
            append_all(out, &newline);
            i += 2;
            assert(o + escape(t) =~= out@ + escape(s@.subrange(i as int, s.len() as int)));
        } else {
            assert(!starts_at(t, 0, escaped_newline())) by {
                if starts_at(t, 0, escaped_newline()) {
                    assert(t.subrange(0, 2)[0] == t[0]);
                    assert(t.subrange(0, 2)[1] == t[1]);
                }
            }
            assert(t.drop_first() =~= s@.subrange(i + 1, s.len() as int));
            out.push(s[i]);
            i += 1;
            assert(o + escape(t) =~= out@ + escape(s@.subrange(i as int, s.len() as int)));
        }
    }
    assert(s@.subrange(i as int, s.len() as int) =~= Seq::<char>::empty());
    assert(out@ =~= out@ + escape(Seq::<char>::empty()));
}

/// The name that an escaped field stands for.
pub fn unescape_chars(s: &Vec<char>) -> (r: Vec<char>)
    ensures
        r@ == unescape(s@),
{
    let comma = comma_token_vec();
    let newline = newline_token_vec();
    let linefeed = linefeed_token_vec();
    let mut out: Vec<char> = Vec::new();
    let mut i: usize = 0;
    assert(s@.subrange(0, s.len() as int) =~= s@);
    while i < s.len()
        invariant
            i <= s.len(),
            comma@ == comma_token(),
            newline@ == newline_token(),
            linefeed@ == linefeed_token(),
            out@ + unescape(s@.subrange(i as int, s.len() as int)) == unescape(s@),
        decreases s.len() - i,
    {
        let ghost t = s@.subrange(i as int, s.len() as int);
        let ghost o = out@;
        let at_comma = starts_at_exec(s, i, &comma);
        assert(at_comma == starts_at(t, 0, comma_token())) by {
            if i + 18 <= s.len() {
                assert(t.subrange(0, 18) =~= s@.subrange(i as int, i + 18));
            }
        }
        if at_comma {
            assert(t.subrange(18, t.len() as int) =~= s@.subrange(i + 18, s.len() as int));
            out.push(',');
            i += 18;
            assert(o + unescape(t) =~= out@ + unescape(s@.subrange(i as int, s.len() as int)));
        } else {
            let at_newline = starts_at_exec(s, i, &newline);
            assert(at_newline == starts_at(t, 0, newline_token())) by {
                if i + 20 <= s.len() {
                    assert(t.subrange(0, 20) =~= s@.subrange(i as int, i + 20));
                }
            }
            if at_newline {
                assert(t.subrange(20, t.len() as int) =~= s@.subrange(i + 20, s.len() as int));
                out.push('\\');
                out.push('n');
                i += 20;
                assert(o + unescape(t) =~= out@ + unescape(s@.subrange(i as int, s.len() as int)));
            } else {
                let at_linefeed = starts_at_exec(s, i, &linefeed);
                assert(at_linefeed == starts_at(t, 0, linefeed_token())) by {
                    if i + 21 <= s.len() {
                        assert(t.subrange(0, 21) =~= s@.subrange(i as int, i + 21));
                    }
                }
                if at_linefeed {
                    assert(t.subrange(21, t.len() as int) =~= s@.subrange(i + 21, s.len() as int));
                    out.push('\n');
                    i += 21;
                    assert(o + unescape(t) =~= out@ + unescape(s@.subrange(i as int, s.len() as int)));
                } else {
                    assert(t.drop_first() =~= s@.subrange(i + 1, s.len() as int));
                    out.push(s[i]);
                    i += 1;
                    assert(o + unescape(t) =~= out@ + unescape(s@.subrange(i as int, s.len() as int)));
                }
            }
        }
    }
    assert(s@.subrange(i as int, s.len() as int) =~= Seq::<char>::empty());
    assert(out@ =~= out@ + unescape(Seq::<char>::empty()));
    out
}

} // verus!
