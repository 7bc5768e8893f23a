use vstd::prelude::*;

verus! {

/// Whether `c` is an ASCII decimal digit.
pub open spec fn is_digit(c: char) -> bool {
    48 <= c as u32 <= 57
}

/// Whether every character of `s` is a decimal digit.
pub open spec fn all_digits(s: Seq<char>) -> bool {
    forall|i: int| 0 <= i < s.len() ==> is_digit(#[trigger] s[i])
}

/// A non-empty run of decimal digits.
pub open spec fn digits1(s: Seq<char>) -> bool {
    s.len() > 0 && all_digits(s)
}

/// `s` without a single leading `+` or `-`, if it has one.
pub open spec fn strip_sign(s: Seq<char>) -> Seq<char> {
    if s.len() > 0 && (s[0] == '+' || s[0] == '-') {
        s.drop_first()
    } else {
        s
    }
}

/// Whether `c` introduces an exponent part.
pub open spec fn is_exp_char(c: char) -> bool {
    c == 'e' || c == 'E'
}

/// Index of the first exponent character in `s`, or `s.len()`.
pub open spec fn first_exp(s: Seq<char>) -> int
    decreases s.len(),
{
    if s.len() == 0 {
        0
    } else if is_exp_char(s[0]) {
        0
    } else {
        1 + first_exp(s.drop_first())
    }
}

/// Index of the first `.` in `s`, or `s.len()`.
pub open spec fn first_dot(s: Seq<char>) -> int
    decreases s.len(),
{
    if s.len() == 0 {
        0
    } else if s[0] == '.' {
        0
    } else {
        1 + first_dot(s.drop_first())
    }
}

/// A mantissa: digits, optionally with one `.`, with at least one digit
/// or the dot flanked by digits on at least one side — `12`, `12.`,
/// `12.5` or `.5`.
pub open spec fn is_mantissa(s: Seq<char>) -> bool {
    let d = first_dot(s);
    if d == s.len() {
        digits1(s)
    } else {
        s.len() >= 2 && all_digits(s.take(d)) && all_digits(s.skip(d + 1))
    }
}

/// An exponent's tail: an optional sign followed by digits.
pub open spec fn exp_tail_ok(t: Seq<char>) -> bool {
    digits1(strip_sign(t))
}

/// An unsigned decimal number: a mantissa, optionally followed by
/// `e`/`E` and a signed digit run.
pub open spec fn is_decimal(b: Seq<char>) -> bool {
    let e = first_exp(b);
    if e == b.len() {
        is_mantissa(b)
    } else {
        is_mantissa(b.take(e)) && exp_tail_ok(b.skip(e + 1))
    }
}

/// `c` lowered if it is an ASCII capital letter.
pub open spec fn ascii_lower(c: char) -> char {
    if 65 <= c as u32 <= 90 {
        ((c as u32 + 32) as u8) as char
    } else {
        c
    }
}

/// `s` with every ASCII capital letter lowered.
pub open spec fn lower_all(s: Seq<char>) -> Seq<char> {
    Seq::new(s.len(), |i: int| ascii_lower(s[i]))
}

/// The named non-finite values: `inf`, `infinity` and `nan`, in any
/// capitalisation.
pub open spec fn is_special(b: Seq<char>) -> bool {
    lower_all(b) == "inf"@ || lower_all(b) == "infinity"@ || lower_all(b) == "nan"@
}

/// Whether `s` is a valid floating-point text: an optional sign followed
/// by a decimal number or a named non-finite value. This is the number
/// grammar that `f64::from_str` documents, so every accepted text can be
/// materialised as an IEEE double by the host.
pub open spec fn float_text_ok(s: Seq<char>) -> bool {
    is_special(strip_sign(s)) || is_decimal(strip_sign(s))
}

/// `first_exp` finds the first exponent character: it is in range, it
/// matches, and nothing before it matches.
pub proof fn lemma_first_exp(s: Seq<char>)
    ensures
        0 <= first_exp(s) <= s.len(),
        first_exp(s) < s.len() ==> is_exp_char(s[first_exp(s)]),
        forall|j: int| 0 <= j < first_exp(s) ==> !is_exp_char(#[trigger] s[j]),
    decreases s.len(),
{
    if s.len() > 0 && !is_exp_char(s[0]) {
        lemma_first_exp(s.drop_first());
        assert(forall|j: int| 0 <= j < s.len() - 1 ==> #[trigger] s.drop_first()[j] == s[j + 1]);
        assert forall|j: int| 0 <= j < first_exp(s) implies !is_exp_char(#[trigger] s[j]) by {
            if j > 0 {
                assert(s.drop_first()[j - 1] == s[j]);
            }
        }
    }
}

/// `first_dot` finds the first dot: it is in range, it matches, and
/// nothing before it matches.
pub proof fn lemma_first_dot(s: Seq<char>)
    ensures
        0 <= first_dot(s) <= s.len(),
        first_dot(s) < s.len() ==> s[first_dot(s)] == '.',
        forall|j: int| 0 <= j < first_dot(s) ==> #[trigger] s[j] != '.',
    decreases s.len(),
{
    if s.len() > 0 && s[0] != '.' {
        lemma_first_dot(s.drop_first());
        assert(forall|j: int| 0 <= j < s.len() - 1 ==> #[trigger] s.drop_first()[j] == s[j + 1]);
        assert forall|j: int| 0 <= j < first_dot(s) implies #[trigger] s[j] != '.' by {
            if j > 0 {
                assert(s.drop_first()[j - 1] == s[j]);
            }
        }
    }
}

/// Whether `s[from..to]` is a non-empty run of decimal digits.
fn digits1_in(s: &str, from: usize, to: usize) -> (r: bool)
    requires
        from <= to <= s@.len(),
    ensures
        r == digits1(s@.subrange(from as int, to as int)),
{
    let ghost sub = s@.subrange(from as int, to as int);
    if to <= from {
        return false;
    }
    let mut i: usize = from;
    while i < to
        invariant
            from <= i <= to <= s@.len(),
            sub == s@.subrange(from as int, to as int),
            forall|j: int| from <= j < i ==> is_digit(#[trigger] s@[j]),
        decreases to - i,
    {
        let c = s.get_char(i);
        if !(c as u32 >= 48 && c as u32 <= 57) {
            proof {
                assert(sub[i - from] == s@[i as int]);
            }
            return false;
        }
        i += 1;
    }
    proof {
        assert forall|j: int| 0 <= j < sub.len() implies is_digit(#[trigger] sub[j]) by {
            assert(sub[j] == s@[from + j]);
        }
    }
    true
}

/// Position of the first exponent character in `s[from..to]`, or `to`.
fn find_exp(s: &str, from: usize, to: usize) -> (r: usize)
    requires
        from <= to <= s@.len(),
    ensures
        from <= r <= to,
        r - from == first_exp(s@.subrange(from as int, to as int)),
{
    let ghost sub = s@.subrange(from as int, to as int);
    let mut i: usize = from;
    while i < to
        invariant
            from <= i <= to <= s@.len(),
            sub == s@.subrange(from as int, to as int),
            forall|j: int| from <= j < i ==> !is_exp_char(#[trigger] s@[j]),
        decreases to - i,
    {
        let c = s.get_char(i);
        if c == 'e' || c == 'E' {
            proof {
                lemma_first_exp(sub);
                assert(sub[i - from] == s@[i as int]);
                assert forall|j: int| 0 <= j < i - from implies !is_exp_char(
                    #[trigger] sub[j],
                ) by {
                    assert(sub[j] == s@[from + j]);
                }
            }
            return i;
        }
        i += 1;
    }
    proof {
        lemma_first_exp(sub);
        assert forall|j: int| 0 <= j < sub.len() implies !is_exp_char(#[trigger] sub[j]) by {
            assert(sub[j] == s@[from + j]);
        }
    }
    to
}

/// Position of the first dot in `s[from..to]`, or `to`.
fn find_dot(s: &str, from: usize, to: usize) -> (r: usize)
    requires
        from <= to <= s@.len(),
    ensures
        from <= r <= to,
        r - from == first_dot(s@.subrange(from as int, to as int)),
{
    let ghost sub = s@.subrange(from as int, to as int);
    let mut i: usize = from;
    while i < to
        invariant
            from <= i <= to <= s@.len(),
            sub == s@.subrange(from as int, to as int),
            forall|j: int| from <= j < i ==> #[trigger] s@[j] != '.',
        decreases to - i,
    {
        let c = s.get_char(i);
        if c == '.' {
            proof {
                lemma_first_dot(sub);
                assert(sub[i - from] == s@[i as int]);
                assert forall|j: int| 0 <= j < i - from implies #[trigger] sub[j] != '.' by {
                    assert(sub[j] == s@[from + j]);
                }
            }
            return i;
        }
        i += 1;
    }
    proof {
        lemma_first_dot(sub);
        assert forall|j: int| 0 <= j < sub.len() implies #[trigger] sub[j] != '.' by {
            assert(sub[j] == s@[from + j]);
        }
    }
    to
}

/// Whether `s[from..to]` is a mantissa.
fn mantissa_in(s: &str, from: usize, to: usize) -> (r: bool)
    requires
        from <= to <= s@.len(),
    ensures
        r == is_mantissa(s@.subrange(from as int, to as int)),
{
    let ghost sub = s@.subrange(from as int, to as int);
    let d = find_dot(s, from, to);
    if d == to {
        digits1_in(s, from, to)
    } else {
        proof {
            assert(sub.take(d - from) =~= s@.subrange(from as int, d as int));
            assert(sub.skip(d - from + 1) =~= s@.subrange(d + 1 as int, to as int));
        }
        if to - from < 2 {
            return false;
        }
        let head = digits1_in(s, from, d);
        let tail = digits1_in(s, d + 1, to);
        let head_ok = head || from == d;
        let tail_ok = tail || d + 1 == to;
        proof {
            assert(all_digits(Seq::<char>::empty()));
            assert(s@.subrange(from as int, from as int) =~= Seq::<char>::empty());
            assert(s@.subrange(to as int, to as int) =~= Seq::<char>::empty());
        }
        head_ok && tail_ok
    }
}

/// Whether `s[from..to]` is an optional sign followed by digits.
fn signed_digits_in(s: &str, from: usize, to: usize) -> (r: bool)
    requires
        from <= to <= s@.len(),
    ensures
        r == exp_tail_ok(s@.subrange(from as int, to as int)),
{
    let ghost sub = s@.subrange(from as int, to as int);
    let start: usize = if from < to {
        let c = s.get_char(from);
        if c == '+' || c == '-' {
            from + 1
        } else {
            from
        }
    } else {
        from
    };
    proof {
        assert(strip_sign(sub) =~= s@.subrange(start as int, to as int));
    }
    digits1_in(s, start, to)
}

/// Whether `s[from..to]` names a non-finite value (`inf`, `infinity`,
/// `nan`, in any capitalisation).
fn special_in(s: &str, from: usize, to: usize) -> (r: bool)
    requires
        from <= to <= s@.len(),
    ensures
        r == is_special(s@.subrange(from as int, to as int)),
{
    let ghost sub = s@.subrange(from as int, to as int);
    proof {
        reveal_strlit("inf");
        reveal_strlit("infinity");
        reveal_strlit("nan");
    }
    let len = to - from;
    if len != 3 && len != 8 {
        proof {
            assert(lower_all(sub).len() == sub.len());
        }
        return false;
    }
    let mut low: Vec<char> = Vec::new();
    let mut i: usize = from;
    while i < to
        invariant
            from <= i <= to <= s@.len(),
            sub == s@.subrange(from as int, to as int),
            low@.len() == i - from,
            forall|j: int| 0 <= j < i - from ==> low@[j] == ascii_lower(#[trigger] sub[j]),
        decreases to - i,
    {
        let c = s.get_char(i);
        let lc: char = if c as u32 >= 65 && c as u32 <= 90 {
            ((c as u32 + 32) as u8) as char
        } else {
            c
        };
        proof {
            assert(sub[i - from] == s@[i as int]);
        }
        low.push(lc);
        i += 1;
    }
    proof {
        assert(low@ =~= lower_all(sub));
    }
    let r = if len == 3 {
        (low[0] == 'i' && low[1] == 'n' && low[2] == 'f') || (low[0] == 'n' && low[1] == 'a'
            && low[2] == 'n')
    } else {
        low[0] == 'i' && low[1] == 'n' && low[2] == 'f' && low[3] == 'i' && low[4] == 'n'
            && low[5] == 'i' && low[6] == 't' && low[7] == 'y'
    };
    proof {
        if r {
            if len == 3 && low@[0] == 'i' {
                assert(low@ =~= "inf"@);
            } else if len == 3 {
                assert(low@ =~= "nan"@);
            } else {
                assert(low@ =~= "infinity"@);
            }
        } else {
            assert(low@ != "inf"@ && low@ != "infinity"@ && low@ != "nan"@);
        }
    }
    r
}

/// Whether `s` is a valid floating-point text, decided against
/// `float_text_ok`.
pub fn float_text_parses(s: &str) -> (r: bool)
    ensures
        r == float_text_ok(s@),
{
    let n = s.unicode_len();
    let start: usize = if n > 0 {
        let c = s.get_char(0);
        if c == '+' || c == '-' {
            1
        } else {
            0
        }
    } else {
        0
    };
    proof {
        assert(strip_sign(s@) =~= s@.subrange(start as int, n as int));
    }
    if special_in(s, start, n) {
        return true;
    }
    let ghost b = s@.subrange(start as int, n as int);
    let e = find_exp(s, start, n);
    if e == n {
        mantissa_in(s, start, n)
    } else {
        proof {
            assert(b.take(e - start) =~= s@.subrange(start as int, e as int));
            assert(b.skip(e - start + 1) =~= s@.subrange(e + 1 as int, n as int));
        }
        let m = mantissa_in(s, start, e);
        let t = signed_digits_in(s, e + 1, n);
        m && t
    }
}

} // verus!
