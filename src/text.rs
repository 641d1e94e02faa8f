use vstd::prelude::*;

verus! {

broadcast use vstd::seq::group_seq_axioms;

/// Unicode's `White_Space` characters.
pub open spec fn space(c: char) -> bool {
    ('\u{9}' <= c && c <= '\u{d}') || c == ' ' || c == '\u{85}' || c == '\u{a0}' || c == '\u{1680}'
        || ('\u{2000}' <= c && c <= '\u{200a}') || c == '\u{2028}' || c == '\u{2029}' || c
        == '\u{202f}' || c == '\u{205f}' || c == '\u{3000}'
}

/// Whether `c` is a white-space character.
pub fn is_space(c: char) -> (r: bool)
    ensures
        r == space(c),
{
    ('\u{9}' <= c && c <= '\u{d}') || c == ' ' || c == '\u{85}' || c == '\u{a0}' || c == '\u{1680}'
        || ('\u{2000}' <= c && c <= '\u{200a}') || c == '\u{2028}' || c == '\u{2029}' || c
        == '\u{202f}' || c == '\u{205f}' || c == '\u{3000}'
}

/// The maximal runs of non-space characters of `s`, in order.
pub open spec fn split_ws(s: Seq<char>) -> Seq<Seq<char>>
    decreases s.len(),
{
    if s.len() == 0 {
        Seq::empty()
    } else if space(s.last()) {
        split_ws(s.drop_last())
    } else if s.len() >= 2 && !space(s[s.len() - 2]) {
        let t = split_ws(s.drop_last());
        t.update(t.len() - 1, t.last().push(s.last()))
    } else {
        split_ws(s.drop_last()).push(seq![s.last()])
    }
}

/// A non-empty text without white space.
pub open spec fn is_token(t: Seq<char>) -> bool {
    t.len() > 0 && forall|i: int| 0 <= i < t.len() ==> !space(t[i])
}

/// The tokens of `ts` joined by single spaces.
pub open spec fn join_ws(ts: Seq<Seq<char>>) -> Seq<char>
    decreases ts.len(),
{
    if ts.len() == 0 {
        Seq::empty()
    } else if ts.len() == 1 {
        ts[0]
    } else {
        join_ws(ts.drop_last()) + seq![' '] + ts.last()
    }
}

proof fn lemma_split_ws_nonempty(s: Seq<char>)
    requires
        s.len() > 0,
        !space(s.last()),
    ensures
        split_ws(s).len() > 0,
        split_ws(s).last() == (if s.len() >= 2 && !space(s[s.len() - 2]) {
            split_ws(s.drop_last()).last().push(s.last())
        } else {
            seq![s.last()]
        }),
        s.len() >= 2 && !space(s[s.len() - 2]) ==> split_ws(s).len() == split_ws(s.drop_last()).len(),
    decreases s.len(),
{
    if s.len() >= 2 && !space(s[s.len() - 2]) {
        lemma_split_ws_nonempty(s.drop_last());
    }
}

/// Appending a token after a space (or to nothing) adds that token.
proof fn lemma_split_ws_append(a: Seq<char>, t: Seq<char>)
    requires
        is_token(t),
        a.len() == 0 || space(a.last()),
    ensures
        split_ws(a + t) == split_ws(a).push(t),
    decreases t.len(),
{
    if t.len() == 1 {
        let s = a + t;
        assert(s.drop_last() =~= a);
        assert(s.last() == t[0]);
        assert(t =~= seq![t[0]]);
        if s.len() >= 2 {
            assert(s[s.len() - 2] == a.last());
        }
    } else {
        let u = t.drop_last();
        assert(is_token(u)) by {
            assert forall|i: int| 0 <= i < u.len() implies !space(u[i]) by {
                assert(u[i] == t[i]);
            }
        }
        lemma_split_ws_append(a, u);
        let s = a + t;
        assert(s.drop_last() =~= a + u);
        assert(s[s.len() - 2] == t[t.len() - 2]);
        assert(s.last() == t.last());
        lemma_split_ws_nonempty(a + u);
        assert(u.push(t.last()) =~= t);
        assert(split_ws(s) =~= split_ws(a).push(t));
    }
}

/// Splitting tokens joined by single spaces gives the tokens back: the text
/// of a fixed-width vector reads back as its components.
pub proof fn law_split_join(ts: Seq<Seq<char>>)
    requires
        forall|i: int| 0 <= i < ts.len() ==> is_token(#[trigger] ts[i]),
    ensures
        split_ws(join_ws(ts)) == ts,
    decreases ts.len(),
{
    if ts.len() == 1 {
        lemma_split_ws_append(Seq::empty(), ts[0]);
        assert(Seq::<char>::empty() + ts[0] =~= ts[0]);
        assert(Seq::<Seq<char>>::empty().push(ts[0]) =~= ts);
    } else if ts.len() > 1 {
        let front = ts.drop_last();
        law_split_join(front);
        let a = join_ws(front) + seq![' '];
        assert(a.drop_last() =~= join_ws(front));
        assert(split_ws(a) == split_ws(join_ws(front)));
        lemma_split_ws_append(a, ts.last());
        assert(front.push(ts.last()) =~= ts);
    }
}

/// The white-space separated tokens of `s`, in order.
pub fn split_whitespace(s: &str) -> (r: Vec<String>)
    ensures
        r@.map_values(|t: String| t@) == split_ws(s@),
{
    let n = s.unicode_len();
    let mut out: Vec<String> = Vec::new();
    let mut i: usize = 0;
    let mut start: usize = 0;
    let mut in_token = false;
    while i < n
        invariant
            n == s@.len(),
            start <= i <= n,
            in_token ==> start < i && !space(s@[i - 1]),
            !in_token ==> i == 0 || space(s@[i - 1]),
            in_token ==> (start == 0 || space(s@[start - 1])),
            in_token ==> forall|k: int| start <= k < i ==> !space(s@[k]),
            !in_token ==> out@.map_values(|t: String| t@) == split_ws(s@.take(i as int)),
            in_token ==> out@.map_values(|t: String| t@).push(s@.subrange(start as int, i as int))
                == split_ws(s@.take(i as int)),
        decreases n - i,
    {
        let c = s.get_char(i);
        let ghost pre = s@.take(i as int);
        let ghost next = s@.take(i + 1);
        proof {
            assert(next.drop_last() =~= pre);
            assert(next.last() == c);
            if i >= 1 {
                assert(next[next.len() - 2] == s@[i - 1]);
            }
        }
        if is_space(c) {
            if in_token {
                let ghost before = out@.map_values(|t: String| t@);
                out.push(s.substring_char(start, i).to_owned());
                proof {
                    assert(out@.map_values(|t: String| t@) =~= before.push(
                        s@.subrange(start as int, i as int),
                    ));
                }
                in_token = false;
            }
        } else {
            if !in_token {
                start = i;
                in_token = true;
                proof {
                    assert(s@.subrange(start as int, i + 1) =~= seq![c]);
                    assert(out@.map_values(|t: String| t@).push(s@.subrange(start as int, i + 1))
                        =~= split_ws(next));
                }
            } else {
                proof {
                    let tv = out@.map_values(|t: String| t@);
                    assert(s@.subrange(start as int, i + 1) =~= s@.subrange(
                        start as int,
                        i as int,
                    ).push(c));
                    assert(tv.push(s@.subrange(start as int, i + 1)) =~= split_ws(next));
                }
            }
        }
        i = i + 1;
    }
    proof {
        assert(s@.take(n as int) =~= s@);
    }
    if in_token {
        let ghost before = out@.map_values(|t: String| t@);
        out.push(s.substring_char(start, n).to_owned());
        proof {
            assert(out@.map_values(|t: String| t@) =~= before.push(
                s@.subrange(start as int, n as int),
            ));
        }
    }
    out
}


pub open spec fn is_digit(c: char) -> bool {
    '0' <= c && c <= '9'
}

/// One or more decimal digits.
pub open spec fn all_digits(d: Seq<char>) -> bool {
    d.len() > 0 && forall|i: int| 0 <= i < d.len() ==> is_digit(#[trigger] d[i])
}

pub open spec fn digit_value(c: char) -> int {
    c as u32 as int - '0' as u32 as int
}

/// The number that the digits `d` denote in base ten.
pub open spec fn digits_value(d: Seq<char>) -> int
    decreases d.len(),
{
    if d.len() == 0 {
        0
    } else {
        digits_value(d.drop_last()) * 10 + digit_value(d.last())
    }
}

/// The integer that `s` denotes: an optional `-` or `+`, then one or more digits.
pub open spec fn int_value(s: Seq<char>) -> Option<int> {
    if s.len() > 0 && s[0] == '-' && all_digits(s.drop_first()) {
        Some(-digits_value(s.drop_first()))
    } else if s.len() > 0 && s[0] == '+' && all_digits(s.drop_first()) {
        Some(digits_value(s.drop_first()))
    } else if all_digits(s) {
        Some(digits_value(s))
    } else {
        None
    }
}

/// The `i64` that `s` denotes, where it denotes one in range.
pub open spec fn i64_of(s: Seq<char>) -> Option<i64> {
    match int_value(s) {
        Some(v) => if i64::MIN <= v <= i64::MAX {
            Some(v as i64)
        } else {
            None
        },
        None => None,
    }
}

pub open spec fn digit_char(d: int) -> char {
    if d == 0 {
        '0'
    } else if d == 1 {
        '1'
    } else if d == 2 {
        '2'
    } else if d == 3 {
        '3'
    } else if d == 4 {
        '4'
    } else if d == 5 {
        '5'
    } else if d == 6 {
        '6'
    } else if d == 7 {
        '7'
    } else if d == 8 {
        '8'
    } else {
        '9'
    }
}

/// The decimal digits of `n`, without leading zeros.
pub open spec fn nat_text(n: nat) -> Seq<char>
    decreases n,
{
    if n < 10 {
        seq![digit_char(n as int)]
    } else {
        nat_text(n / 10).push(digit_char((n % 10) as int))
    }
}

/// The decimal text of `x`: a `-` for a negative value, then its digits.
pub open spec fn int_text(x: int) -> Seq<char> {
    if x < 0 {
        seq!['-'] + nat_text((-x) as nat)
    } else {
        nat_text(x as nat)
    }
}

proof fn lemma_digits_nonneg(d: Seq<char>)
    requires
        forall|i: int| 0 <= i < d.len() ==> is_digit(#[trigger] d[i]),
    ensures
        digits_value(d) >= 0,
    decreases d.len(),
{
    if d.len() > 0 {
        lemma_digits_nonneg(d.drop_last());
    }
}

proof fn lemma_digits_monotone(d: Seq<char>, k: int)
    requires
        0 <= k <= d.len(),
        forall|i: int| 0 <= i < d.len() ==> is_digit(#[trigger] d[i]),
    ensures
        digits_value(d.take(k)) <= digits_value(d),
    decreases d.len(),
{
    if k < d.len() {
        let t = d.drop_last();
        lemma_digits_monotone(t, k);
        assert(t.take(k) =~= d.take(k));
        lemma_digits_nonneg(t);
    } else {
        assert(d.take(k) =~= d);
    }
}

proof fn lemma_digit_char(d: int)
    requires
        0 <= d < 10,
    ensures
        is_digit(digit_char(d)),
        digit_value(digit_char(d)) == d,
{
    if d == 0 {
    } else if d == 1 {
    } else if d == 2 {
    } else if d == 3 {
    } else if d == 4 {
    } else if d == 5 {
    } else if d == 6 {
    } else if d == 7 {
    } else if d == 8 {
    } else {
    }
}

pub(crate) proof fn lemma_nat_text(n: nat)
    ensures
        all_digits(nat_text(n)),
        digits_value(nat_text(n)) == n,
        is_digit(nat_text(n)[0]),
    decreases n,
{
    if n < 10 {
        let t = nat_text(n);
        lemma_digit_char(n as int);
        assert(t.drop_last() =~= Seq::<char>::empty());
        assert(digits_value(t) == digits_value(t.drop_last()) * 10 + digit_value(t.last()));
    } else {
        lemma_digit_char((n % 10) as int);
        lemma_nat_text(n / 10);
        let t = nat_text(n);
        assert(t.drop_last() =~= nat_text(n / 10));
        assert((n / 10) * 10 + n % 10 == n) by (nonlinear_arith);
        assert(digits_value(t) == digits_value(t.drop_last()) * 10 + digit_value(t.last()));
        assert(t[0] == nat_text(n / 10)[0]);
    }
}

/// The text of every `i64` denotes that `i64`.
pub proof fn lemma_int_text_round_trip(x: i64)
    ensures
        i64_of(int_text(x as int)) == Some(x),
{
    if x < 0 {
        let m = (-x) as nat;
        lemma_nat_text(m);
        let s = int_text(x as int);
        assert(s.drop_first() =~= nat_text(m));
    } else {
        lemma_nat_text(x as nat);
    }
}

/// Reads a decimal `i64`: an optional sign and one or more digits, in range.
pub fn parse_i64(s: &str) -> (r: Option<i64>)
    ensures
        r == i64_of(s@),
{
    let n = s.unicode_len();
    if n == 0 {
        return None;
    }
    let c0 = s.get_char(0);
    let neg = c0 == '-';
    let start: usize = if c0 == '-' || c0 == '+' {
        1
    } else {
        0
    };
    if start >= n {
        return None;
    }
    let ghost d = s@.subrange(start as int, n as int);
    proof {
        if start == 1 {
            assert(d =~= s@.drop_first());
        } else {
            assert(d =~= s@);
        }
    }
    let mut acc: u64 = 0;
    let mut i: usize = start;
    while i < n
        invariant
            start <= i <= n,
            start <= 1,
            n == s@.len(),
            d == s@.subrange(start as int, n as int),
            s@[0] == c0,
            neg == (c0 == '-'),
            (start == 1) == (c0 == '-' || c0 == '+'),
            start == 1 ==> d == s@.drop_first(),
            start == 0 ==> d == s@,
            acc == digits_value(d.take(i - start)),
            acc <= 9223372036854775808u64,
            forall|k: int| 0 <= k < i - start ==> is_digit(#[trigger] d[k]),
        decreases n - i,
    {
        let c = s.get_char(i);
        if !('0' <= c && c <= '9') {
            proof {
                assert(d[i - start] == c);
                assert(!all_digits(d));
            }
            return None;
        }
        let dv = (c as u32 - '0' as u32) as u64;
        proof {
            assert(d[i - start] == c);
            assert(d.take(i - start + 1).drop_last() =~= d.take(i - start));
        }
        if acc > (9223372036854775808u64 - dv) / 10 {
            proof {
                assert(digits_value(d.take(i - start + 1)) == acc * 10 + dv);
                assert(acc * 10 + dv > 9223372036854775808u64) by (nonlinear_arith)
                    requires
                        acc > (9223372036854775808u64 - dv) / 10,
                        dv <= 9,
                ;
                if all_digits(d) {
                    lemma_digits_monotone(d, i - start + 1);
                    assert(digits_value(d) > 9223372036854775808u64);
                    if start == 1 {
                        assert(s@.drop_first() == d);
                        if neg {
                            assert(int_value(s@) == Some(-digits_value(d)));
                        } else {
                            assert(int_value(s@) == Some(digits_value(d)));
                        }
                    } else {
                        assert(s@[0] != '-' && s@[0] != '+');
                        assert(int_value(s@) == Some(digits_value(d)));
                    }
                } else {
                    assert(int_value(s@) is None);
                }
            }
            return None;
        }
        acc = acc * 10 + dv;
        i = i + 1;
    }
    proof {
        assert(d.take(n - start) =~= d);
        assert(all_digits(d));
    }
    if neg {
        Some((0i128 - acc as i128) as i64)
    } else if acc <= 9223372036854775807u64 {
        Some(acc as i64)
    } else {
        None
    }
}

fn digit_text(d: u64) -> (r: &'static str)
    requires
        d < 10,
    ensures
        r@ == seq![digit_char(d as int)],
{
    proof {
        reveal_strlit("0");
        reveal_strlit("1");
        reveal_strlit("2");
        reveal_strlit("3");
        reveal_strlit("4");
        reveal_strlit("5");
        reveal_strlit("6");
        reveal_strlit("7");
        reveal_strlit("8");
        reveal_strlit("9");
    }
    if d == 0 {
        "0"
    } else if d == 1 {
        "1"
    } else if d == 2 {
        "2"
    } else if d == 3 {
        "3"
    } else if d == 4 {
        "4"
    } else if d == 5 {
        "5"
    } else if d == 6 {
        "6"
    } else if d == 7 {
        "7"
    } else if d == 8 {
        "8"
    } else {
        "9"
    }
}

fn append_nat_text(n: u64, out: &mut String)
    ensures
        final(out)@ == old(out)@ + nat_text(n as nat),
    decreases n,
{
    if n >= 10 {
        append_nat_text(n / 10, out);
    }
    out.append(digit_text(n % 10));
    proof {
        if n >= 10 {
            assert(old(out)@ + nat_text(n as nat) =~= old(out)@ + nat_text((n / 10) as nat) + seq![
                digit_char((n % 10) as int),
            ]);
        }
    }
}

/// Appends the decimal text of `x` to `out`.
pub fn append_i64_text(x: i64, out: &mut String)
    ensures
        final(out)@ == old(out)@ + int_text(x as int),
{
    if x < 0 {
        proof {
            reveal_strlit("-");
        }
        out.append("-");
        let m: u64 = (0i128 - x as i128) as u64;
        append_nat_text(m, out);
        proof {
            assert(old(out)@ + int_text(x as int) =~= old(out)@ + seq!['-'] + nat_text(m as nat));
        }
    } else {
        append_nat_text(x as u64, out);
    }
}

} // verus!
