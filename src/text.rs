use vstd::prelude::*;

verus! {

pub open spec fn is_digit(c: char) -> bool {
    '0' <= c <= '9'
}

/// The number that a run of decimal digits spells.
pub open spec fn digits_value(s: Seq<char>) -> int
    decreases s.len(),
{
    if s.len() == 0 {
        0
    } else {
        digits_value(s.drop_last()) * 10 + (s.last() as int - '0' as int)
    }
}

/// The number that `s` writes as an unsigned decimal: an optional `+` and then
/// one or more digits.
pub open spec fn unsigned_value(s: Seq<char>) -> Option<int> {
    if unsigned_body(s).len() > 0 && all_digits(unsigned_body(s)) {
        Some(digits_value(unsigned_body(s)))
    } else {
        None
    }
}

/// `s` without its leading `+`, if any.
pub open spec fn unsigned_body(s: Seq<char>) -> Seq<char> {
    if s.len() > 0 && s[0] == '+' {
        s.drop_first()
    } else {
        s
    }
}

pub open spec fn all_digits(s: Seq<char>) -> bool {
    forall|i: int| 0 <= i < s.len() ==> is_digit(#[trigger] s[i])
}

/// `unsigned_value(s)` where it fits in a `u64`.
pub open spec fn u64_value(s: Seq<char>) -> Option<u64> {
    match unsigned_value(s) {
        Some(v) => if v <= u64::MAX {
            Some(v as u64)
        } else {
            None
        },
        None => None,
    }
}

proof fn lemma_digits_grow(s: Seq<char>, i: int)
    requires
        0 <= i <= s.len(),
        forall|k: int| 0 <= k < s.len() ==> is_digit(#[trigger] s[k]),
    ensures
        digits_value(s) >= digits_value(s.take(i)) >= 0,
    decreases s.len() - i,
{
    if i < s.len() {
        lemma_digits_grow(s, i + 1);
        assert(s.take(i + 1).drop_last() =~= s.take(i));
        assert(s.take(i + 1).last() == s[i]);
        lemma_digits_nonneg(s.take(i));
    } else {
        assert(s.take(i) =~= s);
        lemma_digits_nonneg(s);
    }
}

proof fn lemma_digits_nonneg(s: Seq<char>)
    requires
        forall|k: int| 0 <= k < s.len() ==> is_digit(#[trigger] s[k]),
    ensures
        digits_value(s) >= 0,
    decreases s.len(),
{
    if s.len() > 0 {
        assert forall|k: int| 0 <= k < s.drop_last().len() implies is_digit(#[trigger] s.drop_last()[k]) by {
            assert(s.drop_last()[k] == s[k]);
        }
        lemma_digits_nonneg(s.drop_last());
    }
}

/// The characters of `s`.
pub fn chars_of(s: &str) -> (v: Vec<char>)
    ensures
        v@ == s@,
{
    let n = s.unicode_len();
    let mut v: Vec<char> = Vec::new();
    let mut i: usize = 0;
    while i < n
        invariant
            i <= n,
            n == s@.len(),
            v@ == s@.take(i as int),
        decreases n - i,
    {
        v.push(s.get_char(i));
        assert(v@ =~= s@.take(i + 1));
        i = i + 1;
    }
    assert(s@.take(i as int) =~= s@);
    v
}

/// Reads `s` as an unsigned decimal that fits in a `u64`.
pub fn parse_u64_chars(s: &Vec<char>) -> (r: Option<u64>)
    ensures
        r == u64_value(s@),
{
    let start: usize = if s.len() > 0 && s[0] == '+' { 1 } else { 0 };
    let ghost body = unsigned_body(s@);
    assert(body =~= s@.subrange(start as int, s@.len() as int));
    if start >= s.len() {
        return None;
    }
    let mut acc: u64 = 0;
    let mut i: usize = start;
    while i < s.len()
        invariant
            start <= i <= s@.len(),
            start < s@.len(),
            body == s@.subrange(start as int, s@.len() as int),
            body == unsigned_body(s@),
            forall|k: int| start <= k < i ==> is_digit(#[trigger] s@[k]),
            acc == digits_value(s@.subrange(start as int, i as int)),
        decreases s@.len() - i,
    {
        let c = s[i];
        let ghost pre = s@.subrange(start as int, i as int);
        assert(s@.subrange(start as int, i + 1).drop_last() =~= pre);
        assert(s@.subrange(start as int, i + 1).last() == c);
        if !('0' <= c && c <= '9') {
            assert(body[i - start] == s@[i as int]);
            assert(!is_digit(body[i - start]));
            assert(!all_digits(body));
            return None;
        }
        let d = (c as u32 - '0' as u32) as u64;
        if acc > (u64::MAX - d) / 10 {
            proof {
                let all = forall|k: int| 0 <= k < body.len() ==> is_digit(#[trigger] body[k]);
                if all {
                    assert forall|k: int| 0 <= k < body.len() implies is_digit(#[trigger] body[k]) by {}
                    assert(body.take(i + 1 - start) =~= s@.subrange(start as int, i + 1));
                    lemma_digits_grow(body, i + 1 - start);
                    assert(digits_value(s@.subrange(start as int, i + 1)) == acc * 10 + d);
                    assert(acc * 10 + d > u64::MAX) by (nonlinear_arith)
                        requires
                            acc > (u64::MAX - d) / 10,
                            d <= 9,
                    ;
                    assert(unsigned_value(s@) == Some(digits_value(body)));
                }
            }
            return None;
        }
        acc = acc * 10 + d;
        i = i + 1;
    }
    proof {
        assert(s@.subrange(start as int, i as int) =~= body);
        assert forall|k: int| 0 <= k < body.len() implies is_digit(#[trigger] body[k]) by {
            assert(body[k] == s@[start + k]);
        }
    }
    Some(acc)
}

/// Reads `s` as an unsigned decimal that fits in a `u64`, as std's integer
/// parsing does.
pub fn parse_u64(s: &str) -> (r: Option<u64>)
    ensures
        r == u64_value(s@),
{
    let v = chars_of(s);
    parse_u64_chars(&v)
}

/// The pieces of `s` between colons.
pub open spec fn colon_fields(s: Seq<char>) -> Seq<Seq<char>>
    decreases s.len(),
{
    if s.len() == 0 {
        seq![Seq::empty()]
    } else {
        let f = colon_fields(s.drop_last());
        if s.last() == ':' {
            f.push(Seq::empty())
        } else {
            f.update(f.len() - 1, f.last().push(s.last()))
        }
    }
}

proof fn lemma_fields_nonempty(s: Seq<char>)
    ensures
        colon_fields(s).len() >= 1,
    decreases s.len(),
{
    if s.len() > 0 {
        lemma_fields_nonempty(s.drop_last());
    }
}

/// The number of seconds that a sighting period written as `SS`, `MM:SS` or
/// `HH:MM:SS` stands for; each part is an unsigned decimal.
pub open spec fn period_value(s: Seq<char>) -> Option<int> {
    let f = colon_fields(s);
    if f.len() == 1 {
        match u64_value(f[0]) {
            Some(x) => Some(x as int),
            None => None,
        }
    } else if f.len() == 2 {
        match (u64_value(f[0]), u64_value(f[1])) {
            (Some(m), Some(x)) => Some(m * 60 + x),
            _ => None,
        }
    } else if f.len() == 3 {
        match (u64_value(f[0]), u64_value(f[1]), u64_value(f[2])) {
            (Some(h), Some(m), Some(x)) => Some(h * 3600 + m * 60 + x),
            _ => None,
        }
    } else {
        None
    }
}

/// Reads a sighting period written as `SS`, `MM:SS` or `HH:MM:SS`, in seconds.
/// `None` when the text is not of that shape or the total does not fit in a
/// `u64`.
pub fn parse_period(s: &str) -> (r: Option<u64>)
    ensures
        r == (match period_value(s@) {
            Some(v) => if v <= u64::MAX {
                Some(v as u64)
            } else {
                None
            },
            None => None,
        }),
{
    let cs = chars_of(s);
    let mut done: Vec<Vec<char>> = Vec::new();
    let mut current: Vec<char> = Vec::new();
    let mut i: usize = 0;
    while i < cs.len()
        invariant
            i <= cs@.len(),
            colon_fields(cs@.take(i as int)) == done@.map_values(|v: Vec<char>| v@).push(current@),
        decreases cs@.len() - i,
    {
        assert(cs@.take(i + 1).drop_last() =~= cs@.take(i as int));
        assert(cs@.take(i + 1).last() == cs@[i as int]);
        let ghost before = done@;
        if cs[i] == ':' {
            let piece = current;
            current = Vec::new();
            done.push(piece);
            assert(done@.map_values(|v: Vec<char>| v@) =~= before.map_values(|v: Vec<char>| v@).push(piece@));
        } else {
            current.push(cs[i]);
        }
        assert(colon_fields(cs@.take(i + 1)) =~= done@.map_values(|v: Vec<char>| v@).push(current@));
        i = i + 1;
    }
    assert(cs@.take(i as int) =~= cs@);
    let ghost f = colon_fields(s@);
    if done.len() == 0 {
        assert(f[0] == current@);
        parse_u64_chars(&current)
    } else if done.len() == 1 {
        assert(f[0] == done@[0]@ && f[1] == current@);
        match (parse_u64_chars(&done[0]), parse_u64_chars(&current)) {
            (Some(m), Some(x)) => {
                if m > (u64::MAX - x) / 60 {
                    assert(m * 60 + x > u64::MAX) by (nonlinear_arith)
                        requires
                            m > (u64::MAX - x) / 60,
                    ;
                    None
                } else {
                    assert(m * 60 + x <= u64::MAX) by (nonlinear_arith)
                        requires
                            m <= (u64::MAX - x) / 60,
                            x <= u64::MAX,
                    ;
                    Some(m * 60 + x)
                }
            },
            _ => None,
        }
    } else if done.len() == 2 {
        assert(f[0] == done@[0]@ && f[1] == done@[1]@ && f[2] == current@);
        match (parse_u64_chars(&done[0]), parse_u64_chars(&done[1]), parse_u64_chars(&current)) {
            (Some(h), Some(m), Some(x)) => {
                if m > (u64::MAX - x) / 60 {
                    assert(h * 3600 + m * 60 + x > u64::MAX) by (nonlinear_arith)
                        requires
                            m > (u64::MAX - x) / 60,
                            h >= 0,
                    ;
                    None
                } else {
                    assert(m * 60 + x <= u64::MAX) by (nonlinear_arith)
                        requires
                            m <= (u64::MAX - x) / 60,
                            x <= u64::MAX,
                    ;
                    let rest = m * 60 + x;
                    if h > (u64::MAX - rest) / 3600 {
                        assert(h * 3600 + rest > u64::MAX) by (nonlinear_arith)
                            requires
                                h > (u64::MAX - rest) / 3600,
                        ;
                        None
                    } else {
                        assert(h * 3600 + rest <= u64::MAX) by (nonlinear_arith)
                            requires
                                h <= (u64::MAX - rest) / 3600,
                                rest <= u64::MAX,
                        ;
                        Some(h * 3600 + rest)
                    }
                }
            },
            _ => None,
        }
    } else {
        None
    }
}

/// The decimal digit for `d`.
pub open spec fn digit_char(d: nat) -> char {
    if d == 0 {
        '0'
    } else if d == 1 {
        '1'
    } else if d == 2 {
        '2'
    } else if d == 3 {
        '3'
    } else if d == 4 {
        '4'
    } else if d == 5 {
        '5'
    } else if d == 6 {
        '6'
    } else if d == 7 {
        '7'
    } else if d == 8 {
        '8'
    } else {
        '9'
    }
}

/// `n` written in decimal, without sign or leading zeros.
pub open spec fn decimal_text(n: nat) -> Seq<char>
    decreases n,
{
    if n < 10 {
        seq![digit_char(n)]
    } else {
        decimal_text(n / 10).push(digit_char(n % 10))
    }
}

fn digit_text(d: u64) -> (r: &'static str)
    requires
        d < 10,
    ensures
        r@ == seq![digit_char(d as nat)],
{
    proof {
        reveal_strlit("0");
        reveal_strlit("1");
        reveal_strlit("2");
        reveal_strlit("3");
        reveal_strlit("4");
        reveal_strlit("5");
        reveal_strlit("6");
        reveal_strlit("7");
        reveal_strlit("8");
        reveal_strlit("9");
    }
    let r = if d == 0 {
        "0"
    } else if d == 1 {
        "1"
    } else if d == 2 {
        "2"
    } else if d == 3 {
        "3"
    } else if d == 4 {
        "4"
    } else if d == 5 {
        "5"
    } else if d == 6 {
        "6"
    } else if d == 7 {
        "7"
    } else if d == 8 {
        "8"
    } else {
        "9"
    };
    assert(r@ =~= seq![digit_char(d as nat)]);
    r
}

/// `n` written in decimal.
pub fn decimal(n: u64) -> (r: String)
    ensures
        r@ == decimal_text(n as nat),
    decreases n,
{
    if n < 10 {
        digit_text(n).to_owned()
    } else {
        let mut s = decimal(n / 10);
        s.append(digit_text(n % 10));
        s
    }
}

} // verus!
