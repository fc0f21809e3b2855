//! Reading problem and solution records from their one-line text form.
use vstd::prelude::*;
use vstd::string::StringSliceAdditionalSpecFns;
use crate::model::{Item, Problem, Solution};

verus! {

/// The first position from `p` on that is not a space.
pub open spec fn skip_spaces(l: Seq<u8>, p: int) -> int
    decreases l.len() - p,
{
    if p >= l.len() || l[p] != 32u8 {
        p
    } else {
        skip_spaces(l, p + 1)
    }
}

/// The end of the token that starts at `p`: the next space or the end.
pub open spec fn token_end(l: Seq<u8>, p: int) -> int
    decreases l.len() - p,
{
    if p >= l.len() || l[p] == 32u8 {
        p
    } else {
        token_end(l, p + 1)
    }
}

/// All bytes are decimal digits.
pub open spec fn all_digits(t: Seq<u8>) -> bool {
    forall|k: int| 0 <= k < t.len() ==> 48u8 <= #[trigger] t[k] <= 57u8
}

/// The value of a string of decimal digits.
pub open spec fn digits_value(t: Seq<u8>) -> int
    decreases t.len(),
{
    if t.len() == 0 {
        0
    } else {
        digits_value(t.drop_last()) * 10 + (t.last() - 48u8)
    }
}

/// `t` is a string of digits worth at most `max`.
pub open spec fn is_digits_number(t: Seq<u8>, max: int) -> bool {
    t.len() > 0 && all_digits(t) && digits_value(t) <= max
}

/// The digits of a number token: without a leading plus sign.
pub open spec fn number_body(t: Seq<u8>) -> Seq<u8> {
    if t.len() > 0 && t[0] == 43u8 { t.drop_first() } else { t }
}

/// `t` is a number of at most `max`: digits, optionally after a plus sign.
pub open spec fn is_number(t: Seq<u8>, max: int) -> bool {
    is_digits_number(number_body(t), max)
}

/// The value of a number token.
pub open spec fn number_value(t: Seq<u8>) -> int {
    digits_value(number_body(t))
}

/// The next token of `l` from position `p`.
pub open spec fn next_token(l: Seq<u8>, p: int) -> Seq<u8> {
    l.subrange(skip_spaces(l, p), token_end(l, skip_spaces(l, p)))
}

/// Where the text after `k` tokens from `p0` continues.
pub open spec fn tok_pos(l: Seq<u8>, p0: int, k: nat) -> int
    decreases k,
{
    if k == 0 {
        p0
    } else {
        token_end(l, skip_spaces(l, tok_pos(l, p0, (k - 1) as nat)))
    }
}

/// Token `k` (counting from 0) of `l`.
pub open spec fn token(l: Seq<u8>, k: nat) -> Seq<u8> {
    next_token(l, tok_pos(l, 0, k))
}

/// The numeric value of token `k`.
pub open spec fn token_value(l: Seq<u8>, k: nat) -> int {
    number_value(token(l, k))
}

/// Nothing but spaces follows the first `k` tokens.
pub open spec fn ends_after(l: Seq<u8>, k: nat) -> bool {
    skip_spaces(l, tok_pos(l, 0, k)) >= l.len()
}

/// The id token starts with a minus sign.
pub open spec fn negative_id(l: Seq<u8>) -> bool {
    token(l, 0).len() > 0 && token(l, 0)[0] == 45u8
}

/// A token that is one bit, `1` or `0`.
pub open spec fn bit_token(t: Seq<u8>) -> bool {
    t =~= seq![49u8] || t =~= seq![48u8]
}

/// A solution line: id, size and cost as numbers, then `size` bits, then
/// nothing.
pub open spec fn well_formed_solution_line(l: Seq<u8>) -> bool {
    &&& is_number(token(l, 0), u32::MAX as int)
    &&& is_number(token(l, 1), usize::MAX as int)
    &&& is_number(token(l, 2), u32::MAX as int)
    &&& forall|i: int| 0 <= i < token_value(l, 1) ==> bit_token(#[trigger] token(l, (3 + i) as nat))
    &&& ends_after(l, (3 + token_value(l, 1)) as nat)
}

/// The token where the items of a problem line start.
pub open spec fn item_base(l: Seq<u8>) -> int {
    if negative_id(l) { 4 } else { 3 }
}

/// A problem line: a nonzero id, with a minus sign where a threshold
/// follows; size, capacity and the threshold as numbers; `2 * size` item
/// numbers; then nothing.
pub open spec fn well_formed_problem_line(l: Seq<u8>) -> bool {
    let neg = negative_id(l);
    let base = item_base(l);
    &&& if neg {
        is_digits_number(token(l, 0).drop_first(), 0x8000_0000) && digits_value(token(l, 0).drop_first()) > 0
    } else {
        is_number(token(l, 0), 0x7fff_ffff) && token_value(l, 0) > 0
    }
    &&& is_number(token(l, 1), usize::MAX as int)
    &&& is_number(token(l, 2), u32::MAX as int)
    &&& neg ==> is_number(token(l, 3), u32::MAX as int)
    &&& forall|i: int| 0 <= i < token_value(l, 1) ==> is_number(#[trigger] token(l, (base + 2 * i) as nat), u32::MAX as int)
        && is_number(token(l, (base + 2 * i + 1) as nat), u32::MAX as int)
    &&& ends_after(l, (base + 2 * token_value(l, 1)) as nat)
}

proof fn lemma_tok_pos_next(l: Seq<u8>, k: nat)
    ensures
        tok_pos(l, 0, k + 1) == token_end(l, skip_spaces(l, tok_pos(l, 0, k))),
        tok_pos(l, 0, 0) == 0,
{
}

proof fn lemma_skip_bounds(l: Seq<u8>, p: int)
    requires
        0 <= p <= l.len(),
    ensures
        p <= skip_spaces(l, p) <= l.len(),
        p <= token_end(l, p) <= l.len(),
        skip_spaces(l, p) < l.len() ==> l[skip_spaces(l, p)] != 32u8,
    decreases l.len() - p,
{
    if p < l.len() {
        lemma_skip_bounds(l, p + 1);
    }
}

fn skip(line: &[u8], pos: usize) -> (r: usize)
    requires
        pos <= line@.len(),
    ensures
        r == skip_spaces(line@, pos as int),
        pos <= r <= line@.len(),
{
    let mut p = pos;
    while p < line.len() && line[p] == 32u8
        invariant
            pos <= p <= line@.len(),
            skip_spaces(line@, pos as int) == skip_spaces(line@, p as int),
        decreases line@.len() - p,
    {
        p = p + 1;
    }
    p
}

fn end_of_token(line: &[u8], start: usize) -> (r: usize)
    requires
        start <= line@.len(),
    ensures
        r == token_end(line@, start as int),
        start <= r <= line@.len(),
{
    let mut p = start;
    while p < line.len() && line[p] != 32u8
        invariant
            start <= p <= line@.len(),
            token_end(line@, start as int) == token_end(line@, p as int),
        decreases line@.len() - p,
    {
        p = p + 1;
    }
    p
}

/// The value of `line[start..end]` where it is a number of at most `max`.
fn parse_digits(line: &[u8], start: usize, end: usize, max: u64) -> (r: Option<u64>)
    requires
        start <= end <= line@.len(),
    ensures
        r is Some <==> is_digits_number(line@.subrange(start as int, end as int), max as int),
        r is Some ==> r->0 == digits_value(line@.subrange(start as int, end as int)),
{
    if start == end {
        return None;
    }
    let mut v: u64 = 0;
    let mut p = start;
    while p < end
        invariant
            start <= p <= end <= line@.len(),
            all_digits(line@.subrange(start as int, p as int)),
            v == digits_value(line@.subrange(start as int, p as int)),
            v <= max,
        decreases end - p,
    {
        let ghost t = line@.subrange(start as int, p as int + 1);
        proof {
            assert(t.drop_last() =~= line@.subrange(start as int, p as int));
        }
        let b = line[p];
        if b < 48u8 || b > 57u8 {
            proof {
                assert(!all_digits(line@.subrange(start as int, end as int))) by {
                    assert(line@.subrange(start as int, end as int)[p - start] == b);
                }
            }
            return None;
        }
        let d = (b - 48u8) as u64;
        let next = (v as u128) * 10 + (d as u128);
        if next > max as u128 {
            proof {
                assert(t.last() == b);
                if all_digits(line@.subrange(start as int, end as int)) {
                    lemma_digits_prefix_bound(line@, start as int, p as int + 1, end as int);
                }
            }
            return None;
        }
        v = next as u64;
        p = p + 1;
        proof {
            assert(all_digits(line@.subrange(start as int, p as int))) by {
                assert forall|k: int| 0 <= k < p - start implies 48u8 <= #[trigger] line@.subrange(
                    start as int,
                    p as int,
                )[k] <= 57u8 by {
                    if k < p - 1 - start {
                        assert(line@.subrange(start as int, p as int)[k] == line@.subrange(
                            start as int,
                            p - 1,
                        )[k]);
                    }
                }
            }
        }
    }
    Some(v)
}

/// The value of `line[start..end]` where it is a number of at most `max`,
/// with an optional leading plus sign.
fn parse_number(line: &[u8], start: usize, end: usize, max: u64) -> (r: Option<u64>)
    requires
        start <= end <= line@.len(),
    ensures
        r is Some <==> is_number(line@.subrange(start as int, end as int), max as int),
        r is Some ==> r->0 == number_value(line@.subrange(start as int, end as int)),
{
    if start < end && line[start] == 43u8 {
        assert(line@.subrange(start as int, end as int).drop_first() =~= line@.subrange(start + 1, end as int));
        parse_digits(line, start + 1, end, max)
    } else {
        parse_digits(line, start, end, max)
    }
}

/// The value of a string of digits never shrinks as digits are added.
proof fn lemma_digits_prefix_bound(l: Seq<u8>, start: int, q: int, end: int)
    requires
        0 <= start <= q <= end <= l.len(),
        all_digits(l.subrange(start, end)),
    ensures
        digits_value(l.subrange(start, q)) <= digits_value(l.subrange(start, end)),
    decreases end - q,
{
    if q < end {
        lemma_digits_prefix_bound(l, start, q + 1, end);
        let t = l.subrange(start, q + 1);
        assert(t.drop_last() =~= l.subrange(start, q));
        assert(t.last() == l.subrange(start, end)[q - start]);
        assert(all_digits(l.subrange(start, q))) by {
            assert forall|k: int| 0 <= k < q - start implies 48u8 <= #[trigger] l.subrange(start, q)[k] <= 57u8 by {
                assert(l.subrange(start, q)[k] == l.subrange(start, end)[k]);
            }
        }
        lemma_digits_nonneg(l.subrange(start, q));
    }
}

proof fn lemma_digits_nonneg(t: Seq<u8>)
    requires
        all_digits(t),
    ensures
        digits_value(t) >= 0,
    decreases t.len(),
{
    if t.len() > 0 {
        assert(all_digits(t.drop_last())) by {
            assert forall|k: int| 0 <= k < t.len() - 1 implies 48u8 <= #[trigger] t.drop_last()[k] <= 57u8 by {
                assert(t.drop_last()[k] == t[k]);
            }
        }
        lemma_digits_nonneg(t.drop_last());
        assert(48u8 <= t[t.len() - 1]);
    }
}

/// Reads the next token from `pos` as a number of at most `max` and moves
/// `pos` past it; an error where the line has no more tokens or the token
/// is no such number.
pub fn next_parse_with_err(line: &[u8], pos: &mut usize, max: u64) -> (r: Result<u64, String>)
    requires
        *old(pos) <= line@.len(),
    ensures
        *final(pos) == token_end(line@, skip_spaces(line@, *old(pos) as int)),
        *final(pos) <= line@.len(),
        skip_spaces(line@, *old(pos) as int) >= line@.len() ==> r is Err,
        r is Ok <==> is_number(next_token(line@, *old(pos) as int), max as int),
        skip_spaces(line@, *old(pos) as int) < line@.len() ==> {
            &&& r is Ok <==> is_number(next_token(line@, *old(pos) as int), max as int)
            &&& r is Ok ==> r->Ok_0 == number_value(next_token(line@, *old(pos) as int))
        },
{
    let start = skip(line, *pos);
    let end = end_of_token(line, start);
    *pos = end;
    proof {
        if start >= line@.len() {
            assert(token_end(line@, start as int) == start);
            assert(next_token(line@, *old(pos) as int).len() == 0);
        }
    }
    if start >= line.len() {
        return Err("Line exhausted, but next item was expecting".to_string());
    }
    match parse_number(line, start, end, max) {
        Some(v) => Ok(v),
        None => Err("Could not parse number".to_string()),
    }
}

/// Whether only spaces are left from `pos`.
fn exhausted(line: &[u8], pos: usize) -> (r: bool)
    requires
        pos <= line@.len(),
    ensures
        r == (skip_spaces(line@, pos as int) >= line@.len()),
{
    skip(line, pos) >= line.len()
}

/// Reads `id size capacity [threshold] (weight cost){size}`: a negative id
/// announces the threshold of the decision form and is read without its
/// sign; a zero id, a malformed or missing number, or text left over is an
/// error.
pub fn parse_problem_line(line: &str) -> (r: Result<Problem, String>)
    ensures
        r is Ok ==> {
            let p = r->Ok_0;
            let l = line.spec_bytes();
            let neg = negative_id(l);
            let base: nat = if neg { 4 } else { 3 };
            &&& p.id > 0
            &&& p.id == if neg { digits_value(token(l, 0).drop_first()) } else { token_value(l, 0) }
            &&& p.size == token_value(l, 1)
            &&& p.max_weight == token_value(l, 2)
            &&& p.min_cost is Some == neg
            &&& neg ==> p.min_cost->0 == token_value(l, 3)
            &&& p.items@.len() == p.size
            &&& forall|i: int| 0 <= i < p.size ==> {
                &&& (#[trigger] p.items@[i]).weight == token_value(l, (base + 2 * i) as nat)
                &&& p.items@[i].cost == token_value(l, (base + 2 * i + 1) as nat)
            }
            &&& ends_after(l, (base + 2 * p.size) as nat)
        },
        (r is Ok) == well_formed_problem_line(line.spec_bytes()),
{
    let bytes = line.as_bytes();
    let ghost l = bytes@;
    let mut pos: usize = 0;
    let start = skip(bytes, 0);
    let negative = start < bytes.len() && bytes[start] == 45u8;
    proof {
        lemma_skip_bounds(l, start as int);
        lemma_tok_pos_next(l, 0);
        assert(skip_spaces(l, 0) == start);
        if start < l.len() {
            lemma_skip_bounds(l, start + 1);
            lemma_skip_bounds(l, 0);
            assert(l[start as int] != 32u8);
            assert(token_end(l, start as int) > start);
            assert(token(l, 0)[0] == l[start as int]);
        }
        assert(negative == negative_id(l));
    }
    if negative {
        if start + 1 >= bytes.len() || bytes[start + 1] == 32u8 || bytes[start + 1] == 43u8 {
            proof {
                if start + 1 >= bytes.len() || bytes[start + 1] == 32u8 {
                    assert(token_end(l, start + 1) == start + 1);
                    assert(token(l, 0).len() == 1);
                    assert(token(l, 0).drop_first().len() == 0);
                } else {
                    lemma_skip_bounds(l, start + 2);
                    assert(token_end(l, start + 1) > start + 1);
                    assert(token(l, 0).drop_first()[0] == 43u8);
                }
            }
            return Err("Could not parse number".to_string());
        }
        pos = start + 1;
        proof {
            lemma_skip_bounds(l, start as int);
            lemma_skip_bounds(l, start + 1);
            assert(token_end(l, start as int) == token_end(l, start + 1));
            assert(l.subrange(start as int, token_end(l, start as int)).drop_first() =~= l.subrange(
                start + 1,
                token_end(l, start + 1),
            ));
        }
    }
    proof {
        if negative {
            assert(skip_spaces(l, start + 1) == start + 1);
            assert(next_token(l, pos as int) == token(l, 0).drop_first());
        } else {
            assert(next_token(l, pos as int) == token(l, 0));
        }
    }
    let magnitude = next_parse_with_err(bytes, &mut pos, 0x8000_0000)?;
    proof {
        lemma_skip_bounds(l, start as int);
        lemma_tok_pos_next(l, 0);
        assert(skip_spaces(l, 0) == start);
        if start < l.len() {
            assert(token_end(l, start as int) > start);
            assert(token(l, 0)[0] == l[start as int]);
        }
        assert(negative == negative_id(l));
        if negative {
            assert(skip_spaces(l, start + 1) == start + 1);
        }
        assert(pos == tok_pos(l, 0, 1));
    }
    if !negative && magnitude == 0x8000_0000 {
        return Err("Could not parse number".to_string());
    }
    if magnitude == 0 {
        return Err("zero id not permitted".to_string());
    }
    proof {
        lemma_tok_pos_next(l, 1);
        lemma_tok_pos_next(l, 2);
        lemma_tok_pos_next(l, 3);
    }
    assert(next_token(l, pos as int) == token(l, 1));
    let size = next_parse_with_err(bytes, &mut pos, usize::MAX as u64)? as usize;
    assert(is_number(token(l, 1), usize::MAX as int));
    assert(pos == tok_pos(l, 0, 2));
    assert(next_token(l, pos as int) == token(l, 2));
    let max_weight = next_parse_with_err(bytes, &mut pos, u32::MAX as u64)? as u32;
    assert(is_number(token(l, 2), u32::MAX as int));
    assert(pos == tok_pos(l, 0, 3));
    let min_cost = if negative {
        assert(next_token(l, pos as int) == token(l, 3));
        let t = next_parse_with_err(bytes, &mut pos, u32::MAX as u64)? as u32;
        assert(is_number(token(l, 3), u32::MAX as int));
        assert(pos == tok_pos(l, 0, 4));
        Some(t)
    } else {
        None
    };
    let ghost base: int = if negative { 4 } else { 3 };
    let mut items: Vec<Item> = Vec::new();
    let mut i: usize = 0;
    while i < size
        invariant
            l == bytes@,
            l == line.spec_bytes(),
            size == token_value(l, 1),
            base == item_base(l),
            items@.len() == i,
            forall|j: int| 0 <= j < i ==> is_number(#[trigger] token(l, (base + 2 * j) as nat), u32::MAX as int)
                && is_number(token(l, (base + 2 * j + 1) as nat), u32::MAX as int),
            i <= size,
            pos <= bytes@.len(),
            pos == tok_pos(l, 0, (base + 2 * i) as nat),
            forall|j: int| 0 <= j < i ==> {
                &&& (#[trigger] items@[j]).weight == token_value(l, (base + 2 * j) as nat)
                &&& items@[j].cost == token_value(l, (base + 2 * j + 1) as nat)
            },
        decreases size - i,
    {
        proof {
            lemma_tok_pos_next(l, (base + 2 * i) as nat);
            lemma_tok_pos_next(l, (base + 2 * i + 1) as nat);
        }
        assert(next_token(l, pos as int) == token(l, (base + 2 * i) as nat));
        let weight = next_parse_with_err(bytes, &mut pos, u32::MAX as u64)? as u32;
        assert(is_number(token(l, (base + 2 * i) as nat), u32::MAX as int));
        assert(pos == tok_pos(l, 0, (base + 2 * i + 1) as nat));
        assert(next_token(l, pos as int) == token(l, (base + 2 * i + 1) as nat));
        let cost = next_parse_with_err(bytes, &mut pos, u32::MAX as u64)? as u32;
        assert(is_number(token(l, (base + 2 * i + 1) as nat), u32::MAX as int));
        assert(pos == tok_pos(l, 0, (base + 2 * i + 2) as nat));
        items.push(Item { cost, weight });
        i = i + 1;
    }
    if !exhausted(bytes, pos) {
        return Err("Line was not exhausted, wrong problem line!".to_string());
    }
    proof {
        if negative {
            let d = token(l, 0).drop_first();
            assert(d == next_token(l, start + 1));
            assert(d.len() > 0 && d[0] == l[start + 1]);
            assert(number_body(d) == d);
        } else {
            assert(number_value(token(l, 0)) == magnitude);
        }
        assert(well_formed_problem_line(l));
    }
    Ok(Problem { id: magnitude as u32, max_weight, size, min_cost, items })
}

/// Reads `id size cost (bit){size}` with bits `1` and `0`; a malformed or
/// missing field, or text left over, is an error.
pub fn parse_solution_line(line: &str) -> (r: Result<Solution, String>)
    ensures
        r is Ok ==> {
            let s = r->Ok_0;
            let l = line.spec_bytes();
            &&& s.id == token_value(l, 0)
            &&& s.size == token_value(l, 1)
            &&& s.cost == token_value(l, 2)
            &&& s.items is Some
            &&& s.items->0@.len() == s.size
            &&& forall|i: int| 0 <= i < s.size ==> {
                &&& (#[trigger] s.items->0@[i]) == (token(l, (3 + i) as nat) =~= seq![49u8])
                &&& (token(l, (3 + i) as nat) =~= seq![49u8]) || (token(l, (3 + i) as nat) =~= seq![48u8])
            }
            &&& ends_after(l, (3 + s.size) as nat)
        },
        (r is Ok) == well_formed_solution_line(line.spec_bytes()),
{
    let bytes = line.as_bytes();
    let ghost l = bytes@;
    let mut pos: usize = 0;
    proof {
        lemma_tok_pos_next(l, 0);
        lemma_tok_pos_next(l, 1);
        lemma_tok_pos_next(l, 2);
    }
    assert(next_token(l, pos as int) == token(l, 0));
    let id = next_parse_with_err(bytes, &mut pos, u32::MAX as u64)? as u32;
    assert(is_number(token(l, 0), u32::MAX as int));
    assert(pos == tok_pos(l, 0, 1));
    assert(next_token(l, pos as int) == token(l, 1));
    let size = next_parse_with_err(bytes, &mut pos, usize::MAX as u64)? as usize;
    assert(is_number(token(l, 1), usize::MAX as int));
    assert(pos == tok_pos(l, 0, 2));
    assert(next_token(l, pos as int) == token(l, 2));
    let cost = next_parse_with_err(bytes, &mut pos, u32::MAX as u64)? as u32;
    assert(is_number(token(l, 2), u32::MAX as int));
    assert(pos == tok_pos(l, 0, 3));
    let mut items: Vec<bool> = Vec::new();
    let mut i: usize = 0;
    while i < size
        invariant
            l == bytes@,
            l == line.spec_bytes(),
            size == token_value(l, 1),
            items@.len() == i,
            i <= size,
            pos <= bytes@.len(),
            pos == tok_pos(l, 0, (3 + i) as nat),
            forall|j: int| 0 <= j < i ==> {
                &&& (#[trigger] items@[j]) == (token(l, (3 + j) as nat) =~= seq![49u8])
                &&& (token(l, (3 + j) as nat) =~= seq![49u8]) || (token(l, (3 + j) as nat) =~= seq![48u8])
            },
        decreases size - i,
    {
        proof {
            lemma_tok_pos_next(l, (3 + i) as nat);
        }
        let start = skip(bytes, pos);
        let end = end_of_token(bytes, start);
        let ghost t = l.subrange(start as int, end as int);
        assert(t == token(l, (3 + i) as nat));
        if start >= bytes.len() {
            proof {
                assert(token_end(l, start as int) == start);
                assert(t.len() == 0);
                assert(!bit_token(t)) by {
                    assert(seq![49u8].len() == 1 && seq![48u8].len() == 1);
                }
            }
            return Err("Not enough bits in line!".to_string());
        }
        let ghost before = items@;
        assert(t == token(l, (3 + i) as nat));
        pos = end;
        if end == start + 1 && bytes[start] == 49u8 {
            assert(t =~= seq![49u8]);
            items.push(true);
        } else if end == start + 1 && bytes[start] == 48u8 {
            assert(t =~= seq![48u8]);
            assert(t[0] == 48u8);
            assert(!(t =~= seq![49u8])) by {
                assert(seq![49u8][0] == 49u8);
            }
            items.push(false);
        } else {
            proof {
                assert(!bit_token(t)) by {
                    if t =~= seq![49u8] {
                        assert(t.len() == 1 && t[0] == 49u8);
                    }
                    if t =~= seq![48u8] {
                        assert(t.len() == 1 && t[0] == 48u8);
                    }
                }
            }
            return Err("Reference solution is not in (0, 1)!".to_string());
        }
        proof {
            assert forall|j: int| 0 <= j < i + 1 implies {
                &&& (#[trigger] items@[j]) == (token(l, (3 + j) as nat) =~= seq![49u8])
                &&& (token(l, (3 + j) as nat) =~= seq![49u8]) || (token(l, (3 + j) as nat) =~= seq![48u8])
            } by {
                if j < i {
                    assert(items@[j] == before[j]);
                }
            }
        }
        i = i + 1;
    }
    if !exhausted(bytes, pos) {
        return Err("Line was not exhausted, wrong solution line!".to_string());
    }
    proof {
        assert forall|i: int| 0 <= i < token_value(l, 1) implies bit_token(#[trigger] token(l, (3 + i) as nat)) by {
            assert(items@[i] == (token(l, (3 + i) as nat) =~= seq![49u8]));
        }
        assert(well_formed_solution_line(l));
    }
    Ok(Solution { id, size, cost, items: Some(items) })
}

} // verus!
