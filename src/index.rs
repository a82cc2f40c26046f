use indexmap::IndexSet;
use vstd::prelude::*;
use vstd::set_lib::{lemma_int_range, lemma_len_subset, set_int_range};
use crate::ordered_set::{insert_new, new_set, set_insert, set_items};
use crate::text::{append_str, chars_of, decimal, decimal_text, string_from};

verus! {

/// One `/`-separated slice of an index expression, classified.
///
/// Every variant but `Invalid` names positions in `1..=boundary` of the
/// boundary it was parsed against; `Invalid` keeps the offending token and
/// the reason it was rejected.
#[derive(Debug, Clone, PartialEq, Eq, Hash)]
pub enum ParsedRange {
    Single(usize),
    Inclusive(usize, usize),
    From(usize),
    To(usize),
    Full,
    Invalid(String, String),
}

/// The `/`-separated fields of `s`, empty ones included.
pub open spec fn fields(s: Seq<char>) -> Seq<Seq<char>>
    decreases s.len(),
{
    if s.len() == 0 {
        seq![Seq::<char>::empty()]
    } else {
        let f = fields(s.drop_last());
        if s.last() == '/' {
            f.push(Seq::<char>::empty())
        } else {
            f.update(f.len() - 1, f.last().push(s.last()))
        }
    }
}

/// The non-empty members of `fs`, in order.
pub open spec fn nonempty(fs: Seq<Seq<char>>) -> Seq<Seq<char>>
    decreases fs.len(),
{
    if fs.len() == 0 {
        fs
    } else if fs.last().len() > 0 {
        nonempty(fs.drop_last()).push(fs.last())
    } else {
        nonempty(fs.drop_last())
    }
}

/// The tokens of an index expression: its non-empty `/`-separated fields.
pub open spec fn tokens(s: Seq<char>) -> Seq<Seq<char>> {
    nonempty(fields(s))
}

/// The accepted tokens of `ts`, as ranges, in order.
pub open spec fn valid_ranges(ts: Seq<Seq<char>>, boundary: nat) -> Seq<ParsedRange>
    decreases ts.len(),
{
    if ts.len() == 0 {
        Seq::empty()
    } else {
        let rest = valid_ranges(ts.drop_last(), boundary);
        match token_range(ts.last(), boundary) {
            Some(p) => rest.push(p),
            None => rest,
        }
    }
}

/// The rejected tokens of `ts` with their reasons, in order.
pub open spec fn rejected(ts: Seq<Seq<char>>, boundary: nat) -> Seq<(Seq<char>, Seq<char>)>
    decreases ts.len(),
{
    if ts.len() == 0 {
        Seq::empty()
    } else {
        let rest = rejected(ts.drop_last(), boundary);
        match token_range(ts.last(), boundary) {
            Some(_) => rest,
            None => rest.push((ts.last(), token_reason(ts.last(), boundary))),
        }
    }
}

pub open spec fn pair_views(v: Seq<(String, String)>) -> Seq<(Seq<char>, Seq<char>)> {
    v.map_values(|p: (String, String)| (p.0@, p.1@))
}

pub open spec fn is_digit(c: char) -> bool {
    '0' <= c && c <= '9'
}

pub open spec fn all_digits(s: Seq<char>) -> bool {
    forall|i: int| 0 <= i < s.len() ==> #[trigger] is_digit(s[i])
}

pub open spec fn digit_value(c: char) -> nat {
    (c as u32 - '0' as u32) as nat
}

/// The value of a run of decimal digits (zero for the empty run).
pub open spec fn number(s: Seq<char>) -> nat
    decreases s.len(),
{
    if s.len() == 0 {
        0
    } else {
        number(s.drop_last()) * 10 + digit_value(s.last())
    }
}

pub open spec fn in_bounds(n: nat, boundary: nat) -> bool {
    1 <= n && n <= boundary
}

/// A token of exactly one decimal digit.
pub open spec fn is_single_token(t: Seq<char>) -> bool {
    t.len() == 1 && is_digit(t[0])
}

/// `t` reads `digits ~ digits` with its `~` at position `k`.
pub open spec fn tilde_at(t: Seq<char>, k: int) -> bool {
    &&& 0 <= k < t.len()
    &&& t[k] == '~'
    &&& all_digits(t.subrange(0, k))
    &&& all_digits(t.subrange(k + 1, t.len() as int))
}

pub open spec fn is_range_token(t: Seq<char>) -> bool {
    exists|k: int| tilde_at(t, k)
}

/// The digits left of the `~` of a range token.
pub open spec fn left_side(t: Seq<char>) -> Seq<char> {
    t.subrange(0, choose|k: int| tilde_at(t, k))
}

/// The digits right of the `~` of a range token.
pub open spec fn right_side(t: Seq<char>) -> Seq<char> {
    t.subrange((choose|k: int| tilde_at(t, k)) + 1, t.len() as int)
}

/// What a token stands for when it is accepted; `None` when it is rejected.
pub open spec fn token_range(t: Seq<char>, boundary: nat) -> Option<ParsedRange> {
    if is_single_token(t) {
        let n = digit_value(t[0]);
        if in_bounds(n, boundary) {
            Some(ParsedRange::Single(n as usize))
        } else {
            None
        }
    } else if is_range_token(t) {
        let l = left_side(t);
        let r = right_side(t);
        let n1 = number(l);
        let n2 = number(r);
        if l.len() == 0 && r.len() == 0 {
            Some(ParsedRange::Full)
        } else if r.len() == 0 {
            if in_bounds(n1, boundary) {
                Some(ParsedRange::From(n1 as usize))
            } else {
                None
            }
        } else if l.len() == 0 {
            if in_bounds(n2, boundary) {
                Some(ParsedRange::To(n2 as usize))
            } else {
                None
            }
        } else if in_bounds(n1, boundary) && in_bounds(n2, boundary) && n1 <= n2 {
            Some(ParsedRange::Inclusive(n1 as usize, n2 as usize))
        } else {
            None
        }
    } else {
        None
    }
}

pub open spec fn boundary_reason(boundary: nat) -> Seq<char> {
    "Range should between 1~"@ + decimal_text(boundary)
}

pub open spec fn order_reason(n1: nat, n2: nat) -> Seq<char> {
    "The starting index("@ + decimal_text(n1) + ") must not greater than the ending index("@
        + decimal_text(n2) + ")"@
}

pub open spec fn syntax_reason() -> Seq<char> {
    "Syntax error"@
}

/// Why a rejected token was rejected.
pub open spec fn token_reason(t: Seq<char>, boundary: nat) -> Seq<char> {
    if is_single_token(t) {
        boundary_reason(boundary)
    } else if is_range_token(t) {
        let l = left_side(t);
        let r = right_side(t);
        let n1 = number(l);
        let n2 = number(r);
        if l.len() > 0 && r.len() > 0 && in_bounds(n1, boundary) && in_bounds(n2, boundary)
            && n1 > n2 {
            order_reason(n1, n2)
        } else {
            boundary_reason(boundary)
        }
    } else {
        syntax_reason()
    }
}

proof fn lemma_all_digits_push(s: Seq<char>, c: char)
    ensures
        all_digits(s.push(c)) == (all_digits(s) && is_digit(c)),
{
    if all_digits(s.push(c)) {
        assert(is_digit(s.push(c)[s.len() as int]));
        assert forall|i: int| 0 <= i < s.len() implies #[trigger] is_digit(s[i]) by {
            assert(is_digit(s.push(c)[i]));
        }
    }
    if all_digits(s) && is_digit(c) {
        assert forall|i: int| 0 <= i < s.len() + 1 implies #[trigger] is_digit(s.push(c)[i]) by {
            if i < s.len() {
                assert(is_digit(s[i]));
            }
        }
    }
}

fn is_digit_char(c: char) -> (r: bool)
    ensures
        r == is_digit(c),
{
    '0' <= c && c <= '9'
}

/// The value of the digits `cs[lo..hi]` when it is at most `cap`; `None` when it exceeds `cap`.
fn number_capped(cs: &Vec<char>, lo: usize, hi: usize, cap: usize) -> (r: Option<usize>)
    requires
        lo <= hi <= cs@.len(),
        all_digits(cs@.subrange(lo as int, hi as int)),
    ensures
        match r {
            Some(v) => v as nat == number(cs@.subrange(lo as int, hi as int)) && v <= cap,
            None => number(cs@.subrange(lo as int, hi as int)) > cap,
        },
{
    let mut v: usize = 0;
    let mut over = false;
    let mut i = lo;
    assert(cs@.subrange(lo as int, lo as int) =~= Seq::<char>::empty());
    while i < hi
        invariant
            lo <= i <= hi <= cs@.len(),
            all_digits(cs@.subrange(lo as int, hi as int)),
            over ==> number(cs@.subrange(lo as int, i as int)) > cap,
            !over ==> v as nat == number(cs@.subrange(lo as int, i as int)) && v <= cap,
        decreases hi - i,
    {
        let ghost prev = cs@.subrange(lo as int, i as int);
        let ghost next = cs@.subrange(lo as int, i + 1);
        assert(next.drop_last() =~= prev);
        assert(next.last() == cs@[i as int]);
        assert(is_digit(cs@.subrange(lo as int, hi as int)[i - lo]));
        let d = (cs[i] as u32 - '0' as u32) as usize;
        assert(number(next) == number(prev) * 10 + d);
        if !over {
            if v > cap / 10 {
                assert(v * 10 + d > cap) by (nonlinear_arith)
                    requires
                        v > cap / 10,
                ;
                over = true;
            } else {
                assert(v * 10 <= cap) by (nonlinear_arith)
                    requires
                        v <= cap / 10,
                ;
                let w = v * 10;
                if d > cap - w {
                    over = true;
                } else {
                    v = w + d;
                }
            }
        } else {
            assert(number(prev) * 10 + d > cap) by (nonlinear_arith)
                requires
                    number(prev) > cap,
            ;
        }
        i = i + 1;
    }
    if over {
        None
    } else {
        Some(v)
    }
}

fn boundary_message(boundary: usize) -> (r: String)
    ensures
        r@ == boundary_reason(boundary as nat),
{
    let mut m = "Range should between 1~".to_owned();
    append_str(&mut m, decimal(boundary).as_str());
    m
}

fn order_message(n1: usize, n2: usize) -> (r: String)
    ensures
        r@ == order_reason(n1 as nat, n2 as nat),
{
    let mut m = "The starting index(".to_owned();
    append_str(&mut m, decimal(n1).as_str());
    append_str(&mut m, ") must not greater than the ending index(");
    append_str(&mut m, decimal(n2).as_str());
    append_str(&mut m, ")");
    m
}

/// Classifies the token `cs[lo..hi]`.
fn classify(cs: &Vec<char>, lo: usize, hi: usize, boundary: usize) -> (r: ParsedRange)
    requires
        lo < hi <= cs@.len(),
    ensures
        ({
            let t = cs@.subrange(lo as int, hi as int);
            match token_range(t, boundary as nat) {
                Some(p) => r == p,
                None => r matches ParsedRange::Invalid(x, y) && x@ == t && y@ == token_reason(
                    t,
                    boundary as nat,
                ),
            }
        }),
{
    let ghost t = cs@.subrange(lo as int, hi as int);
    if hi - lo == 1 && is_digit_char(cs[lo]) {
        let n = (cs[lo] as u32 - '0' as u32) as usize;
        assert(t[0] == cs@[lo as int]);
        if 1 <= n && n <= boundary {
            return ParsedRange::Single(n);
        } else {
            return ParsedRange::Invalid(string_from(cs, lo, hi), boundary_message(boundary));
        }
    }
    assert(!is_single_token(t));
    let mut k = lo;
    while k < hi && cs[k] != '~'
        invariant
            lo <= k <= hi <= cs@.len(),
            forall|j: int| lo <= j < k ==> cs@[j] != '~',
        decreases hi - k,
    {
        k = k + 1;
    }
    if k == hi {
        assert(!is_range_token(t)) by {
            if exists|j: int| tilde_at(t, j) {
                let j = choose|j: int| tilde_at(t, j);
                assert(t[j] == cs@[lo + j]);
            }
        }
        return ParsedRange::Invalid(string_from(cs, lo, hi), "Syntax error".to_owned());
    }
    let ghost k0 = (k - lo) as int;
    assert(t[k0] == '~');
    let mut left_ok = true;
    let mut i = lo;
    while i < k
        invariant
            lo <= i <= k < hi <= cs@.len(),
            left_ok == all_digits(cs@.subrange(lo as int, i as int)),
        decreases k - i,
    {
        let ghost before = cs@.subrange(lo as int, i as int);
        assert(cs@.subrange(lo as int, i + 1) =~= before.push(cs@[i as int]));
        proof {
            lemma_all_digits_push(before, cs@[i as int]);
        }
        left_ok = left_ok && is_digit_char(cs[i]);
        i = i + 1;
    }
    let mut right_ok = true;
    let mut i = k + 1;
    while i < hi
        invariant
            k < i <= hi <= cs@.len(),
            right_ok == all_digits(cs@.subrange(k + 1, i as int)),
        decreases hi - i,
    {
        let ghost before = cs@.subrange(k + 1, i as int);
        assert(cs@.subrange(k + 1, i + 1) =~= before.push(cs@[i as int]));
        proof {
            lemma_all_digits_push(before, cs@[i as int]);
        }
        right_ok = right_ok && is_digit_char(cs[i]);
        i = i + 1;
    }
    assert(t.subrange(0, k0) =~= cs@.subrange(lo as int, k as int));
    assert(t.subrange(k0 + 1, t.len() as int) =~= cs@.subrange(k + 1, hi as int));
    if !left_ok || !right_ok {
        assert(!is_range_token(t)) by {
            if exists|j: int| tilde_at(t, j) {
                let j = choose|j: int| tilde_at(t, j);
                if j < k0 {
                    assert(t[j] == cs@[lo + j]);
                } else if j > k0 {
                    assert(is_digit(t.subrange(0, j)[k0]));
                    assert(t.subrange(0, j)[k0] == t[k0]);
                } else {
                    assert(tilde_at(t, k0));
                }
            }
        }
        return ParsedRange::Invalid(string_from(cs, lo, hi), "Syntax error".to_owned());
    }
    assert(tilde_at(t, k0));
    assert((choose|j: int| tilde_at(t, j)) == k0) by {
        let j = choose|j: int| tilde_at(t, j);
        if j < k0 {
            assert(t[j] == cs@[lo + j]);
        } else if j > k0 {
            assert(is_digit(t.subrange(0, j)[k0]));
            assert(t.subrange(0, j)[k0] == t[k0]);
        }
    }
    let l_empty = k == lo;
    let r_empty = k + 1 == hi;
    let v1 = number_capped(cs, lo, k, boundary);
    let v2 = number_capped(cs, k + 1, hi, boundary);
    if l_empty && r_empty {
        ParsedRange::Full
    } else if r_empty {
        match v1 {
            Some(n) if n >= 1 => ParsedRange::From(n),
            _ => ParsedRange::Invalid(string_from(cs, lo, hi), boundary_message(boundary)),
        }
    } else if l_empty {
        match v2 {
            Some(n) if n >= 1 => ParsedRange::To(n),
            _ => ParsedRange::Invalid(string_from(cs, lo, hi), boundary_message(boundary)),
        }
    } else {
        match (v1, v2) {
            (Some(n1), Some(n2)) if n1 >= 1 && n2 >= 1 => {
                if n1 <= n2 {
                    ParsedRange::Inclusive(n1, n2)
                } else {
                    ParsedRange::Invalid(string_from(cs, lo, hi), order_message(n1, n2))
                }
            },
            _ => ParsedRange::Invalid(string_from(cs, lo, hi), boundary_message(boundary)),
        }
    }
}

proof fn lemma_fields_nonempty(s: Seq<char>)
    ensures
        fields(s).len() >= 1,
    decreases s.len(),
{
    if s.len() > 0 {
        lemma_fields_nonempty(s.drop_last());
    }
}

/// Classifies the token `cs[lo..hi]` and files it with the accepted or the rejected ones.
fn file_token(
    cs: &Vec<char>,
    lo: usize,
    hi: usize,
    boundary: usize,
    valid: &mut Vec<ParsedRange>,
    invalid: &mut Vec<(String, String)>,
)
    requires
        lo < hi <= cs@.len(),
    ensures
        token_range(cs@.subrange(lo as int, hi as int), boundary as nat) is Some ==> final(valid)@
            == old(valid)@.push(token_range(cs@.subrange(lo as int, hi as int), boundary as nat)->0)
            && final(invalid)@ == old(invalid)@,
        token_range(cs@.subrange(lo as int, hi as int), boundary as nat) is None ==> final(valid)@
            == old(valid)@ && pair_views(final(invalid)@) == pair_views(old(invalid)@).push(
            (
                cs@.subrange(lo as int, hi as int),
                token_reason(cs@.subrange(lo as int, hi as int), boundary as nat),
            ),
        ),
{
    let r = classify(cs, lo, hi, boundary);
    match r {
        ParsedRange::Invalid(raw, reason) => {
            let ghost before = invalid@;
            invalid.push((raw, reason));
            assert(pair_views(invalid@) =~= pair_views(before).push((raw@, reason@)));
        },
        _ => {
            valid.push(r);
        },
    }
}

/// Splits an index expression into its tokens and classifies each one on its own.
///
/// The empty expression stands for the first position alone. Otherwise the
/// accepted tokens come first, as ranges, and the rejected ones second, each
/// with its own text and the reason it was rejected; both keep the order of
/// the expression.
pub fn parse(raw_index: &str, boundary: usize) -> (r: (Vec<ParsedRange>, Vec<(String, String)>))
    ensures
        raw_index@.len() == 0 ==> r.0@ == seq![ParsedRange::Single(1)] && r.1@.len() == 0,
        raw_index@.len() > 0 ==> r.0@ == valid_ranges(tokens(raw_index@), boundary as nat)
            && pair_views(r.1@) == rejected(tokens(raw_index@), boundary as nat),
{
    let mut valid: Vec<ParsedRange> = Vec::new();
    let mut invalid: Vec<(String, String)> = Vec::new();
    if raw_index.is_empty() {
        valid.push(ParsedRange::Single(1));
        return (valid, invalid);
    }
    let cs = chars_of(raw_index);
    let ghost b = boundary as nat;
    let mut start: usize = 0;
    let mut i: usize = 0;
    assert(cs@.subrange(0, 0) =~= Seq::<char>::empty());
    assert(pair_views(invalid@) =~= Seq::empty());
    while i < cs.len()
        invariant
            start <= i <= cs@.len(),
            cs@ == raw_index@,
            b == boundary as nat,
            fields(cs@.subrange(0, i as int)).last() == cs@.subrange(start as int, i as int),
            valid@ == valid_ranges(nonempty(fields(cs@.subrange(0, i as int)).drop_last()), b),
            pair_views(invalid@) == rejected(
                nonempty(fields(cs@.subrange(0, i as int)).drop_last()),
                b,
            ),
        decreases cs.len() - i,
    {
        let ghost pre = cs@.subrange(0, i as int);
        let ghost f = fields(pre);
        let ghost ts = nonempty(f.drop_last());
        let ghost t = cs@.subrange(start as int, i as int);
        proof {
            lemma_fields_nonempty(pre);
            assert(cs@.subrange(0, i + 1).drop_last() =~= pre);
            assert(f =~= f.drop_last().push(t));
        }
        if cs[i] == '/' {
            assert(fields(cs@.subrange(0, i + 1)).drop_last() =~= f);
            assert(nonempty(f) == if t.len() > 0 {
                ts.push(t)
            } else {
                ts
            });
            if start < i {
                assert(ts.push(t).drop_last() =~= ts);
                assert(ts.push(t).last() == t);
                file_token(&cs, start, i, boundary, &mut valid, &mut invalid);
            }
            start = i + 1;
            assert(cs@.subrange(start as int, i + 1) =~= Seq::<char>::empty());
        } else {
            assert(cs@.subrange(start as int, i + 1) =~= t.push(cs@[i as int]));
            assert(fields(cs@.subrange(0, i + 1)).drop_last() =~= f.drop_last());
        }
        i = i + 1;
    }
    let ghost f = fields(cs@.subrange(0, i as int));
    let ghost ts = nonempty(f.drop_last());
    proof {
        assert(cs@.subrange(0, i as int) =~= raw_index@);
        lemma_fields_nonempty(cs@.subrange(0, i as int));
        assert(f =~= f.drop_last().push(f.last()));
        assert(f.last() == cs@.subrange(start as int, i as int));
        assert(nonempty(f) == if start < i {
            ts.push(f.last())
        } else {
            ts
        });
    }
    if start < i {
        file_token(&cs, start, i, boundary, &mut valid, &mut invalid);
        assert(ts.push(cs@.subrange(start as int, i as int)).drop_last() =~= ts);
    }
    (valid, invalid)
}

/// The positions `lo..=hi` in ascending order (none when `lo > hi`).
pub open spec fn span(lo: int, hi: int) -> Seq<usize> {
    Seq::new(if hi >= lo { (hi - lo + 1) as nat } else { 0 }, |i: int| (lo + i) as usize)
}

/// The positions a range stands for, in ascending order.
pub open spec fn expansion(p: ParsedRange, boundary: nat) -> Seq<usize> {
    match p {
        ParsedRange::Single(n) => seq![n],
        ParsedRange::Inclusive(lo, hi) => span(lo as int, hi as int),
        ParsedRange::From(n) => span(n as int, boundary as int),
        ParsedRange::To(n) => span(1, n as int),
        ParsedRange::Full => span(1, boundary as int),
        ParsedRange::Invalid(_, _) => Seq::empty(),
    }
}

/// `s` after inserting each of `xs` in turn.
pub open spec fn add_all(s: Seq<usize>, xs: Seq<usize>) -> Seq<usize>
    decreases xs.len(),
{
    if xs.len() == 0 {
        s
    } else {
        insert_new(add_all(s, xs.drop_last()), xs.last())
    }
}

/// The positions of all `rs`, each kept once, in the order it first appears.
pub open spec fn purified(rs: Seq<ParsedRange>, boundary: nat) -> Seq<usize>
    decreases rs.len(),
{
    if rs.len() == 0 {
        Seq::empty()
    } else {
        add_all(purified(rs.drop_last(), boundary), expansion(rs.last(), boundary))
    }
}

/// A range that stays within `1..=boundary`.
pub open spec fn range_in_bounds(p: ParsedRange, boundary: nat) -> bool {
    match p {
        ParsedRange::Single(n) => in_bounds(n as nat, boundary),
        ParsedRange::Inclusive(lo, hi) => in_bounds(lo as nat, boundary) && in_bounds(
            hi as nat,
            boundary,
        ) && lo <= hi,
        ParsedRange::From(n) => in_bounds(n as nat, boundary),
        ParsedRange::To(n) => in_bounds(n as nat, boundary),
        ParsedRange::Full => true,
        ParsedRange::Invalid(_, _) => true,
    }
}

fn insert_span(set: &mut IndexSet<usize>, lo: usize, hi: usize)
    ensures
        set_items(*final(set)) == add_all(set_items(*old(set)), span(lo as int, hi as int)),
{
    if lo > hi {
        assert(span(lo as int, hi as int) =~= Seq::<usize>::empty());
        return;
    }
    let ghost start = set_items(*set);
    let mut j = lo;
    assert(span(lo as int, lo - 1) =~= Seq::<usize>::empty());
    loop
        invariant_except_break
            set_items(*set) == add_all(start, span(lo as int, j - 1)),
        invariant
            lo <= j <= hi,
        ensures
            set_items(*set) == add_all(start, span(lo as int, hi as int)),
        decreases hi - j,
    {
        set_insert(set, j);
        assert(span(lo as int, j as int).drop_last() =~= span(lo as int, j - 1));
        if j == hi {
            break;
        }
        j = j + 1;
    }
}

/// The positions named by `valid_ranges`, each kept once, in the order of
/// first appearance; each range contributes its positions in ascending order.
pub fn purify(valid_ranges: Vec<ParsedRange>, boundary: usize) -> (r: IndexSet<usize>)
    ensures
        set_items(r) == purified(valid_ranges@, boundary as nat),
{
    let mut result = new_set();
    let mut i: usize = 0;
    while i < valid_ranges.len()
        invariant
            i <= valid_ranges@.len(),
            set_items(result) == purified(valid_ranges@.subrange(0, i as int), boundary as nat),
        decreases valid_ranges.len() - i,
    {
        let ghost rs = valid_ranges@.subrange(0, i + 1);
        assert(rs.drop_last() =~= valid_ranges@.subrange(0, i as int));
        assert(rs.last() == valid_ranges@[i as int]);
        assert(purified(rs, boundary as nat) == add_all(
            purified(valid_ranges@.subrange(0, i as int), boundary as nat),
            expansion(valid_ranges@[i as int], boundary as nat),
        ));
        match &valid_ranges[i] {
            ParsedRange::Single(n) => {
                let ghost before = set_items(result);
                set_insert(&mut result, *n);
                assert(seq![*n].drop_last() =~= Seq::<usize>::empty());
                assert(add_all(before, Seq::<usize>::empty()) == before);
                assert(add_all(before, seq![*n]) == insert_new(before, *n));
            },
            ParsedRange::Full => {
                insert_span(&mut result, 1, boundary);
            },
            ParsedRange::To(n) => {
                insert_span(&mut result, 1, *n);
            },
            ParsedRange::From(n) => {
                insert_span(&mut result, *n, boundary);
            },
            ParsedRange::Inclusive(lo, hi) => {
                insert_span(&mut result, *lo, *hi);
            },
            ParsedRange::Invalid(_, _) => {
            },
        }
        i = i + 1;
    }
    assert(valid_ranges@.subrange(0, i as int) =~= valid_ranges@);
    result
}

/// An expression made of one decimal digit of value `v` is accepted, as the
/// single position `v`, exactly when `1 <= v <= boundary`; otherwise it is
/// rejected, with its own text and the reason that names the bounds.
pub proof fn lemma_digit_token(t: Seq<char>, boundary: nat)
    requires
        t.len() == 1,
        all_digits(t),
    ensures
        in_bounds(number(t), boundary) ==> valid_ranges(tokens(t), boundary) == seq![
            ParsedRange::Single(number(t) as usize),
        ] && rejected(tokens(t), boundary) == Seq::<(Seq<char>, Seq<char>)>::empty(),
        !in_bounds(number(t), boundary) ==> valid_ranges(tokens(t), boundary) == Seq::<
            ParsedRange,
        >::empty() && rejected(tokens(t), boundary) == seq![(t, boundary_reason(boundary))],
{
    assert(is_digit(t[0]));
    assert(t.drop_last() =~= Seq::<char>::empty());
    assert(t.last() == t[0]);
    assert(number(Seq::<char>::empty()) == 0);
    assert(number(t) == digit_value(t[0]));
    assert(fields(Seq::<char>::empty()) =~= seq![Seq::<char>::empty()]);
    assert(fields(t.drop_last()) =~= seq![Seq::<char>::empty()]);
    assert(t.last() != '/');
    assert(Seq::<char>::empty().push(t.last()) =~= t);
    assert(fields(t) =~= seq![t]);
    assert(seq![t].drop_last() =~= Seq::<Seq<char>>::empty());
    assert(nonempty(seq![t].drop_last()) =~= Seq::<Seq<char>>::empty());
    assert(tokens(t) =~= seq![t]);
    let ts = tokens(t);
    assert(ts.drop_last() =~= Seq::<Seq<char>>::empty());
    assert(valid_ranges(ts.drop_last(), boundary) =~= Seq::<ParsedRange>::empty());
    assert(rejected(ts.drop_last(), boundary) =~= Seq::<(Seq<char>, Seq<char>)>::empty());
    assert(is_single_token(t));
}

proof fn lemma_add_all_props(s: Seq<usize>, xs: Seq<usize>, boundary: nat)
    requires
        s.no_duplicates(),
        forall|i: int| 0 <= i < s.len() ==> 1 <= #[trigger] s[i] <= boundary,
        forall|i: int| 0 <= i < xs.len() ==> 1 <= #[trigger] xs[i] <= boundary,
    ensures
        add_all(s, xs).no_duplicates(),
        forall|i: int|
            0 <= i < add_all(s, xs).len() ==> 1 <= #[trigger] add_all(s, xs)[i] <= boundary,
    decreases xs.len(),
{
    if xs.len() > 0 {
        lemma_add_all_props(s, xs.drop_last(), boundary);
        assert(xs.last() == xs[xs.len() - 1]);
    }
}

proof fn lemma_purified_props(rs: Seq<ParsedRange>, boundary: nat)
    requires
        boundary <= usize::MAX,
        forall|i: int| 0 <= i < rs.len() ==> range_in_bounds(#[trigger] rs[i], boundary),
    ensures
        purified(rs, boundary).no_duplicates(),
        forall|i: int|
            0 <= i < purified(rs, boundary).len() ==> 1 <= #[trigger] purified(rs, boundary)[i]
                <= boundary,
    decreases rs.len(),
{
    if rs.len() > 0 {
        lemma_purified_props(rs.drop_last(), boundary);
        let p = rs.last();
        assert(range_in_bounds(rs[rs.len() - 1], boundary));
        let xs = expansion(p, boundary);
        assert forall|i: int| 0 <= i < xs.len() implies 1 <= #[trigger] xs[i] <= boundary by {
            match p {
                ParsedRange::Single(n) => {
                    assert(xs[i] == n);
                },
                ParsedRange::Inclusive(lo, hi) => {
                    assert(xs[i] == lo + i);
                },
                ParsedRange::From(n) => {
                    assert(xs[i] == n + i);
                },
                ParsedRange::To(n) => {
                    assert(xs[i] == 1 + i);
                },
                ParsedRange::Full => {
                    assert(xs[i] == 1 + i);
                },
                ParsedRange::Invalid(_, _) => {},
            }
        }
        lemma_add_all_props(purified(rs.drop_last(), boundary), xs, boundary);
    }
}

/// Purifying any mix of in-bounds ranges, overlapping or not, gives distinct
/// positions, each within `1..=boundary`, and so never more than `boundary`
/// of them.
pub proof fn lemma_purified_distinct_within(rs: Seq<ParsedRange>, boundary: nat)
    requires
        boundary <= usize::MAX,
        forall|i: int| 0 <= i < rs.len() ==> range_in_bounds(#[trigger] rs[i], boundary),
    ensures
        purified(rs, boundary).no_duplicates(),
        forall|i: int|
            0 <= i < purified(rs, boundary).len() ==> 1 <= #[trigger] purified(rs, boundary)[i]
                <= boundary,
        purified(rs, boundary).len() <= boundary,
{
    lemma_purified_props(rs, boundary);
    let s = purified(rs, boundary);
    let t = s.map_values(|x: usize| x as int);
    assert(t.no_duplicates()) by {
        assert forall|i: int, j: int| 0 <= i < t.len() && 0 <= j < t.len() && i != j implies t[i]
            != t[j] by {
            assert(s[i] != s[j]);
        }
    }
    t.unique_seq_to_set();
    assert(t.to_set().subset_of(set_int_range(1, boundary as int + 1))) by {
        assert forall|x: int| t.to_set().contains(x) implies set_int_range(1, boundary as int + 1).contains(
            x,
        ) by {
            let i = choose|i: int| 0 <= i < t.len() && t[i] == x;
            assert(1 <= s[i] <= boundary);
        }
    }
    lemma_int_range(1, boundary as int + 1);
    lemma_len_subset(t.to_set(), set_int_range(1, boundary as int + 1));
}

/// `s[p]` is a `[` with at least one character before it and a `]` somewhere after it.
pub open spec fn opens_at(s: Seq<char>, p: int) -> bool {
    &&& 1 <= p < s.len()
    &&& s[p] == '['
    &&& exists|q: int| p < q < s.len() && s[q] == ']'
}

/// `p` is the last opening bracket that is closed later, and `q` the first `]` after it.
pub open spec fn bracket_pair(s: Seq<char>, p: int, q: int) -> bool {
    &&& opens_at(s, p)
    &&& forall|p_other: int| p < p_other < s.len() ==> !opens_at(s, p_other)
    &&& p < q < s.len()
    &&& s[q] == ']'
    &&& forall|k: int| p < k < q ==> s[k] != ']'
}

/// The name and index expression of `s`, when it has the form `name[index]`.
pub open spec fn destructed(s: Seq<char>) -> Option<(Seq<char>, Seq<char>)> {
    if exists|pq: (int, int)| bracket_pair(s, pq.0, pq.1) {
        let pq = choose|pq: (int, int)| bracket_pair(s, pq.0, pq.1);
        Some((s.subrange(0, pq.0), s.subrange(pq.0 + 1, pq.1)))
    } else {
        None
    }
}

proof fn lemma_bracket_pair_unique(s: Seq<char>, p: int, q: int, p_other: int, q_other: int)
    requires
        bracket_pair(s, p, q),
        bracket_pair(s, p_other, q_other),
    ensures
        p == p_other && q == q_other,
{
    if p < p_other {
        assert(!opens_at(s, p_other));
    } else if p_other < p {
        assert(!opens_at(s, p));
    }
    if q < q_other {
        assert(s[q] != ']');
    } else if q_other < q {
        assert(s[q_other] != ']');
    }
}

/// Splits `name[index]` into the name and the index expression.
///
/// The split is at the last `[` that has a character before it and a `]`
/// after it; the index expression runs up to the first `]` after that `[`.
/// Without such a bracket the input is no selector with an index.
pub fn destruct_input(with_index: &str) -> (r: Option<(String, String)>)
    ensures
        match r {
            None => forall|p: int| !opens_at(with_index@, p),
            Some((base, index)) => exists|p: int, q: int|
                bracket_pair(with_index@, p, q) && base@ == with_index@.subrange(0, p) && index@
                    == with_index@.subrange(p + 1, q),
        },
        match r {
            None => destructed(with_index@) is None,
            Some((base, index)) => destructed(with_index@) == Some((base@, index@)),
        },
{
    let cs = chars_of(with_index);
    let n = cs.len();
    let ghost s = cs@;
    // the last closing bracket
    let mut c = n;
    while c > 0 && cs[c - 1] != ']'
        invariant
            c <= n == s.len(),
            s == cs@,
            forall|k: int| c <= k < n ==> s[k] != ']',
        decreases c,
    {
        c = c - 1;
    }
    if c == 0 {
        assert forall|p: int| !opens_at(s, p) by {
            if opens_at(s, p) {
                let q = choose|q: int| p < q < s.len() && s[q] == ']';
            }
        }
        assert(!exists|pq: (int, int)| bracket_pair(s, pq.0, pq.1));
        return None;
    }
    let close = c - 1;
    // the last opening bracket before it, not at the start
    let mut o = close;
    while o > 1 && cs[o - 1] != '['
        invariant
            o <= close < n == s.len(),
            s == cs@,
            s[close as int] == ']',
            forall|k: int| close < k < n ==> s[k] != ']',
            forall|k: int| o <= k < close ==> s[k] != '[',
        decreases o,
    {
        o = o - 1;
    }
    if o <= 1 {
        assert forall|p: int| !opens_at(s, p) by {
            if opens_at(s, p) {
                let q = choose|q: int| p < q < s.len() && s[q] == ']';
                assert(q <= close);
            }
        }
        assert(!exists|pq: (int, int)| bracket_pair(s, pq.0, pq.1));
        return None;
    }
    let p = o - 1;
    assert(opens_at(s, p as int));
    assert forall|p_other: int| p < p_other < s.len() implies !opens_at(s, p_other) by {
        if opens_at(s, p_other) {
            let q = choose|q: int| p_other < q < s.len() && s[q] == ']';
            assert(q <= close);
        }
    }
    // the first closing bracket after it
    let mut q = p + 1;
    while cs[q] != ']'
        invariant
            p < q <= close < n == s.len(),
            s == cs@,
            s[close as int] == ']',
            forall|k: int| p < k < q ==> s[k] != ']',
        decreases close - q,
    {
        q = q + 1;
    }
    assert(bracket_pair(s, p as int, q as int));
    proof {
        assert(bracket_pair(s, (p as int, q as int).0, (p as int, q as int).1));
        let pq = choose|pq: (int, int)| bracket_pair(s, pq.0, pq.1);
        lemma_bracket_pair_unique(s, p as int, q as int, pq.0, pq.1);
    }
    Some((string_from(&cs, 0, p), string_from(&cs, p + 1, q)))
}

} // verus!
