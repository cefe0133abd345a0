//! Reading a CNF formula in DIMACS form.
//!
//! The text is cut into lines at each `'\n'`.  Blank lines and lines whose
//! first non-blank character is `c` or `%` are skipped.  A line starting
//! with `p` is a header: `p cnf <vars> <clauses>` sets the variable count.
//! Every other line is a list of integers; a `0` ends the clause being
//! read, a nonzero integer adds a literal to it, and any other word is
//! passed over.  A clause left open at the end is kept.
use vstd::prelude::*;
use crate::lit::{dimacs_to_lit, lit_from_dimacs, Lit};

verus! {

/// Whitespace as `char::is_whitespace` has it: the Unicode `White_Space`
/// characters.
pub open spec fn is_ws(c: char) -> bool {
    let u = c as u32;
    ||| 9 <= u <= 13
    ||| u == 0x20
    ||| u == 0x85
    ||| u == 0xa0
    ||| u == 0x1680
    ||| 0x2000 <= u <= 0x200a
    ||| u == 0x2028
    ||| u == 0x2029
    ||| u == 0x202f
    ||| u == 0x205f
    ||| u == 0x3000
}

/// The pieces of `s` between the `'\n'` characters, in order; there is one
/// more piece than there are `'\n'`s (the last may be empty, and an empty
/// line is skipped, so a final `'\n'` changes nothing).
pub open spec fn lines(s: Seq<char>) -> Seq<Seq<char>>
    decreases s.len(),
{
    if s.len() == 0 {
        seq![Seq::<char>::empty()]
    } else {
        let pre = lines(s.drop_last());
        if s.last() == '\n' {
            pre.push(Seq::<char>::empty())
        } else {
            pre.update(pre.len() - 1, pre.last().push(s.last()))
        }
    }
}

/// The maximal runs of non-whitespace characters of `t`, in order (what
/// `split_whitespace` yields).
pub open spec fn tokens(t: Seq<char>) -> Seq<Seq<char>>
    decreases t.len(),
{
    if t.len() == 0 {
        Seq::<Seq<char>>::empty()
    } else {
        let pre = tokens(t.drop_last());
        let c = t.last();
        if is_ws(c) {
            pre
        } else if t.len() >= 2 && !is_ws(t[t.len() - 2]) {
            pre.update(pre.len() - 1, pre.last().push(c))
        } else {
            pre.push(seq![c])
        }
    }
}

pub open spec fn is_digit(c: char) -> bool {
    '0' as u32 <= c as u32 <= '9' as u32
}

/// The value of a string of decimal digits.
pub open spec fn digits_value(d: Seq<char>) -> int
    decreases d.len(),
{
    if d.len() == 0 {
        0
    } else {
        10 * digits_value(d.drop_last()) + (d.last() as u32 - '0' as u32)
    }
}

pub open spec fn all_digits(d: Seq<char>) -> bool {
    d.len() > 0 && forall|k: int| 0 <= k < d.len() ==> #[trigger] is_digit(d[k])
}

/// What `str::parse::<i32>` gives: an optional `+` or `-`, then at least
/// one decimal digit, the value in the range of `i32`.
pub open spec fn parse_i32_spec(t: Seq<char>) -> Option<i32> {
    let signed = t.len() > 0 && (t[0] == '-' || t[0] == '+');
    let d = if signed {
        t.skip(1)
    } else {
        t
    };
    let v = if t.len() > 0 && t[0] == '-' {
        -digits_value(d)
    } else {
        digits_value(d)
    };
    if all_digits(d) && i32::MIN <= v <= i32::MAX {
        Some(v as i32)
    } else {
        None
    }
}

/// What `str::parse::<u32>` gives: an optional `+`, then at least one
/// decimal digit, the value in the range of `u32`.
pub open spec fn parse_u32_spec(t: Seq<char>) -> Option<u32> {
    let d = if t.len() > 0 && t[0] == '+' {
        t.skip(1)
    } else {
        t
    };
    if all_digits(d) && digits_value(d) <= u32::MAX {
        Some(digits_value(d) as u32)
    } else {
        None
    }
}

/// The reading state: the variable count, the finished clauses and the
/// literals of the clause being read.
pub type ParseState = (u32, Seq<Seq<Lit>>, Seq<Lit>);

/// One word of a clause line.  `None` for `-2147483648`, whose literal
/// cannot be formed (negating it overflows).
pub open spec fn step_token(st: ParseState, tok: Seq<char>) -> Option<ParseState> {
    match parse_i32_spec(tok) {
        None => Some(st),
        Some(v) => if v == 0 {
            if st.2.len() > 0 {
                Some((st.0, st.1.push(st.2), Seq::<Lit>::empty()))
            } else {
                Some(st)
            }
        } else if v == i32::MIN {
            None
        } else {
            Some((st.0, st.1, st.2.push(dimacs_to_lit(v as int) as Lit)))
        },
    }
}

/// The words of a clause line, in order.
pub open spec fn step_tokens(st: ParseState, toks: Seq<Seq<char>>) -> Option<ParseState>
    decreases toks.len(),
{
    if toks.len() == 0 {
        Some(st)
    } else {
        match step_tokens(st, toks.drop_last()) {
            None => None,
            Some(s1) => step_token(s1, toks.last()),
        }
    }
}

/// `p cnf <vars> ...` with at least four words sets the variable count (to
/// 0 if `<vars>` is not a `u32`); any other `p` line changes nothing.
pub open spec fn step_header(st: ParseState, toks: Seq<Seq<char>>) -> ParseState {
    if toks.len() >= 4 && toks[1] == seq!['c', 'n', 'f'] {
        let n = match parse_u32_spec(toks[2]) {
            Some(n) => n,
            None => 0u32,
        };
        (n, st.1, st.2)
    } else {
        st
    }
}

/// One line, classified by its first non-blank character.
pub open spec fn step_line(st: ParseState, line: Seq<char>) -> Option<ParseState> {
    let toks = tokens(line);
    if toks.len() == 0 || toks[0][0] == 'c' || toks[0][0] == '%' {
        Some(st)
    } else if toks[0][0] == 'p' {
        Some(step_header(st, toks))
    } else {
        step_tokens(st, toks)
    }
}

/// The lines, in order, from the empty state.
pub open spec fn step_lines(ls: Seq<Seq<char>>) -> Option<ParseState>
    decreases ls.len(),
{
    if ls.len() == 0 {
        Some((0u32, Seq::<Seq<Lit>>::empty(), Seq::<Lit>::empty()))
    } else {
        match step_lines(ls.drop_last()) {
            None => None,
            Some(st) => step_line(st, ls.last()),
        }
    }
}

/// The variable count and clauses of a DIMACS text; `None` when it holds
/// the clause word `-2147483648`.
pub open spec fn dimacs_spec(s: Seq<char>) -> Option<(u32, Seq<Seq<Lit>>)> {
    match step_lines(lines(s)) {
        None => None,
        Some(st) => Some(
            (
                st.0,
                if st.2.len() > 0 {
                    st.1.push(st.2)
                } else {
                    st.1
                },
            ),
        ),
    }
}

/// The contents of a list of vectors.
pub open spec fn views<T>(v: Seq<Vec<T>>) -> Seq<Seq<T>> {
    v.map_values(|w: Vec<T>| w@)
}

fn collect_chars(content: &str) -> (r: Vec<char>)
    ensures
        r@ == content@,
{
    let mut chars: Vec<char> = Vec::new();
    for c in it: content.chars()
        invariant
            chars@ == it.seq().take(it.index() as int),
    {
        chars.push(c);
    }
    chars
}

/// Whether `c` is whitespace.
pub fn is_whitespace(c: char) -> (r: bool)
    ensures
        r == is_ws(c),
{
    let u = c as u32;
    (9 <= u && u <= 13) || u == 0x20 || u == 0x85 || u == 0xa0 || u == 0x1680 || (0x2000 <= u && u <= 0x200a)
        || u == 0x2028 || u == 0x2029 || u == 0x202f || u == 0x205f || u == 0x3000
}

/// Splits `line` into its whitespace-separated words.
pub fn split_tokens(line: &Vec<char>) -> (r: Vec<Vec<char>>)
    ensures
        views(r@) == tokens(line@),
{
    let mut toks: Vec<Vec<char>> = Vec::new();
    let mut cur: Vec<char> = Vec::new();
    let mut in_tok = false;
    let n = line.len();
    let mut j: usize = 0;
    while j < n
        invariant
            n == line@.len(),
            j <= n,
            in_tok <==> (j > 0 && !is_ws(line@[j - 1])),
            tokens(line@.take(j as int)) == if in_tok {
                views(toks@).push(cur@)
            } else {
                views(toks@)
            },
        decreases n - j,
    {
        let c = line[j];
        let ghost t = line@.take(j + 1);
        proof {
            assert(t.drop_last() =~= line@.take(j as int));
            assert(t.last() == c);
            if j > 0 {
                assert(t[t.len() - 2] == line@[j - 1]);
            }
        }
        if is_whitespace(c) {
            if in_tok {
                let ghost v0 = views(toks@);
                let done = cur;
                cur = Vec::new();
                toks.push(done);
                proof {
                    assert(views(toks@) =~= v0.push(done@));
                }
                in_tok = false;
            }
        } else {
            if in_tok {
                cur.push(c);
            } else {
                cur = Vec::new();
                cur.push(c);
                in_tok = true;
                proof {
                    assert(cur@ =~= seq![c]);
                }
            }
        }
        j = j + 1;
    }
    if in_tok {
        let ghost v0 = views(toks@);
        toks.push(cur);
        proof {
            assert(views(toks@) =~= v0.push(cur@));
        }
    }
    proof {
        assert(line@.take(n as int) =~= line@);
    }
    toks
}

/// The value of the digits `t[start..]`, capped at `2^32`; `None` if any of
/// them is not a digit or there are none.
fn digits_capped(t: &Vec<char>, start: usize) -> (r: Option<u64>)
    requires
        start <= t@.len(),
    ensures
        r is Some <==> all_digits(t@.skip(start as int)),
        r matches Some(v) ==> v == if digits_value(t@.skip(start as int)) < 0x1_0000_0000 {
            digits_value(t@.skip(start as int))
        } else {
            0x1_0000_0000
        },
{
    let n = t.len();
    if start == n {
        return None;
    }
    let ghost d = t@.skip(start as int);
    let mut acc: u64 = 0;
    let mut i = start;
    while i < n
        invariant
            start <= i <= n == t@.len(),
            d == t@.skip(start as int),
            forall|k: int| 0 <= k < i - start ==> #[trigger] is_digit(d[k]),
            acc == if digits_value(d.take(i - start)) < 0x1_0000_0000 {
                digits_value(d.take(i - start))
            } else {
                0x1_0000_0000
            },
            0 <= digits_value(d.take(i - start)),
        decreases n - i,
    {
        let c = t[i];
        let u = c as u32;
        if u < 48 || u > 57 {
            proof {
                assert(d[i - start] == c);
                assert(!is_digit(d[i - start]));
            }
            return None;
        }
        proof {
            assert(d.take(i - start + 1).drop_last() =~= d.take(i - start));
            assert(d.take(i - start + 1).last() == c);
        }
        acc = acc * 10 + (u - 48) as u64;
        if acc > 0x1_0000_0000 {
            acc = 0x1_0000_0000;
        }
        i = i + 1;
    }
    proof {
        assert(d.take(n - start) =~= d);
    }
    Some(acc)
}

/// Reads `t` as an `i32` the way `str::parse` does.
pub fn parse_i32(t: &Vec<char>) -> (r: Option<i32>)
    ensures
        r == parse_i32_spec(t@),
{
    let n = t.len();
    let signed = n > 0 && (t[0] == '-' || t[0] == '+');
    let neg = n > 0 && t[0] == '-';
    let start: usize = if signed {
        1
    } else {
        0
    };
    proof {
        assert(t@.skip(0) =~= t@);
    }
    match digits_capped(t, start) {
        None => None,
        Some(acc) => {
            if neg {
                if acc > 0x8000_0000 {
                    None
                } else {
                    Some((0 - (acc as i64)) as i32)
                }
            } else {
                if acc > 0x7fff_ffff {
                    None
                } else {
                    Some(acc as i32)
                }
            }
        },
    }
}

/// Reads `t` as a `u32` the way `str::parse` does.
pub fn parse_u32(t: &Vec<char>) -> (r: Option<u32>)
    ensures
        r == parse_u32_spec(t@),
{
    let n = t.len();
    let start: usize = if n > 0 && t[0] == '+' {
        1
    } else {
        0
    };
    proof {
        assert(t@.skip(0) =~= t@);
    }
    match digits_capped(t, start) {
        None => None,
        Some(acc) => {
            if acc > 0xffff_ffff {
                None
            } else {
                Some(acc as u32)
            }
        },
    }
}

/// Every word is non-empty.
pub proof fn lemma_tokens_nonempty(t: Seq<char>)
    ensures
        forall|k: int| 0 <= k < tokens(t).len() ==> #[trigger] tokens(t)[k].len() > 0,
    decreases t.len(),
{
    if t.len() > 0 {
        lemma_tokens_nonempty(t.drop_last());
        let pre = tokens(t.drop_last());
        let c = t.last();
        if !is_ws(c) && t.len() >= 2 && !is_ws(t[t.len() - 2]) {
            lemma_tokens_last(t.drop_last());
            assert forall|k: int| 0 <= k < tokens(t).len() implies #[trigger] tokens(t)[k].len() > 0 by {
                if k < pre.len() - 1 {
                    assert(tokens(t)[k] == pre[k]);
                }
            }
        } else if !is_ws(c) {
            assert forall|k: int| 0 <= k < tokens(t).len() implies #[trigger] tokens(t)[k].len() > 0 by {
                if k < pre.len() {
                    assert(tokens(t)[k] == pre[k]);
                }
            }
        }
    }
}

/// A text ending in a non-blank character has at least one word.
pub proof fn lemma_tokens_last(t: Seq<char>)
    requires
        t.len() > 0,
        !is_ws(t.last()),
    ensures
        tokens(t).len() > 0,
    decreases t.len(),
{
    if t.len() >= 2 && !is_ws(t[t.len() - 2]) {
        assert(t.drop_last().last() == t[t.len() - 2]);
        lemma_tokens_last(t.drop_last());
    }
}

/// There is always at least one line.
pub proof fn lemma_lines_nonempty(s: Seq<char>)
    ensures
        lines(s).len() >= 1,
    decreases s.len(),
{
    if s.len() > 0 {
        lemma_lines_nonempty(s.drop_last());
    }
}

/// Applies the words of a clause line.
fn apply_tokens(num_vars: &u32, clauses: &mut Vec<Vec<Lit>>, current: &mut Vec<Lit>, toks: &Vec<Vec<char>>) -> (ok: bool)
    ensures
        match step_tokens((*num_vars, views(old(clauses)@), old(current)@), views(toks@)) {
            None => !ok,
            Some(st) => ok && st == (*num_vars, views(final(clauses)@), final(current)@),
        },
{
    let ghost st0 = (*num_vars, views(clauses@), current@);
    let n = toks.len();
    let mut k: usize = 0;
    while k < n
        invariant
            n == toks@.len(),
            k <= n,
            step_tokens(st0, views(toks@).take(k as int)) == Some((*num_vars, views(clauses@), current@)),
            st0 == (*num_vars, views(old(clauses)@), old(current)@),
        decreases n - k,
    {
        let ghost pre = views(toks@).take(k as int);
        let ghost post = views(toks@).take(k + 1);
        proof {
            assert(post.drop_last() =~= pre);
            assert(post.last() == toks@[k as int]@);
        }
        match parse_i32(&toks[k]) {
            None => {},
            Some(v) => {
                if v == 0 {
                    if current.len() > 0 {
                        let ghost v0 = views(clauses@);
                        let mut done: Vec<Lit> = Vec::new();
                        std::mem::swap(&mut done, current);
                        clauses.push(done);
                        proof {
                            assert(views(clauses@) =~= v0.push(done@));
                            assert(current@ =~= Seq::<Lit>::empty());
                        }
                    }
                } else if v == i32::MIN {
                    proof {
                        assert(step_tokens(st0, post) is None);
                        assert(views(toks@).take(n as int) =~= views(toks@));
                        lemma_step_tokens_none(st0, views(toks@), k as int + 1);
                    }
                    return false;
                } else {
                    current.push(lit_from_dimacs(v));
                }
            },
        }
        k = k + 1;
    }
    proof {
        assert(views(toks@).take(n as int) =~= views(toks@));
    }
    true
}

/// Once a word is refused, so is every longer list of words.
pub proof fn lemma_step_tokens_none(st: ParseState, toks: Seq<Seq<char>>, k: int)
    requires
        0 <= k <= toks.len(),
        step_tokens(st, toks.take(k)) is None,
    ensures
        step_tokens(st, toks) is None,
    decreases toks.len() - k,
{
    if k < toks.len() {
        assert(toks.take(k + 1).drop_last() =~= toks.take(k));
        lemma_step_tokens_none(st, toks, k + 1);
    } else {
        assert(toks.take(k) =~= toks);
    }
}

/// Applies one line.
fn apply_line(num_vars: &mut u32, clauses: &mut Vec<Vec<Lit>>, current: &mut Vec<Lit>, line: &Vec<char>) -> (ok: bool)
    ensures
        match step_line((*old(num_vars), views(old(clauses)@), old(current)@), line@) {
            None => !ok,
            Some(st) => ok && st == (*final(num_vars), views(final(clauses)@), final(current)@),
        },
{
    let toks = split_tokens(line);
    proof {
        lemma_tokens_nonempty(line@);
    }
    if toks.len() == 0 {
        return true;
    }
    proof {
        assert(toks@[0]@ == tokens(line@)[0]);
        assert(toks@[0]@.len() > 0);
    }
    let first = toks[0][0];
    if first == 'c' || first == '%' {
        return true;
    }
    if first == 'p' {
        if toks.len() >= 4 && toks[1].len() == 3 && toks[1][0] == 'c' && toks[1][1] == 'n' && toks[1][2] == 'f' {
            proof {
                assert(toks@[1]@ =~= seq!['c', 'n', 'f']);
                assert(views(toks@)[1] == toks@[1]@);
                assert(views(toks@)[2] == toks@[2]@);
            }
            *num_vars = match parse_u32(&toks[2]) {
                Some(n) => n,
                None => 0,
            };
        } else {
            proof {
                if toks@.len() >= 4 {
                    assert(views(toks@)[1] == toks@[1]@);
                    if toks@[1]@ == seq!['c', 'n', 'f'] {
                        assert(toks@[1]@.len() == 3);
                        assert(toks@[1]@[0] == 'c');
                        assert(toks@[1]@[1] == 'n');
                        assert(toks@[1]@[2] == 'f');
                    }
                }
            }
        }
        return true;
    }
    apply_tokens(num_vars, clauses, current, &toks)
}

/// Reads a DIMACS text: the variable count of its `p cnf` header (0 without
/// one) and its clauses as literal lists, in order.  `None` when a clause
/// line holds the word `-2147483648`.
pub fn try_parse_dimacs(content: &str) -> (r: Option<(u32, Vec<Vec<Lit>>)>)
    ensures
        match r {
            None => dimacs_spec(content@) is None,
            Some(res) => dimacs_spec(content@) == Some((res.0, views(res.1@))),
        },
{
    let chars = collect_chars(content);
    let ghost s = content@;
    let n = chars.len();
    let mut nv: u32 = 0;
    let mut clauses: Vec<Vec<Lit>> = Vec::new();
    let mut current: Vec<Lit> = Vec::new();
    let mut line: Vec<char> = Vec::new();
    let mut failed = false;
    let mut i: usize = 0;
    proof {
        assert(s.take(0) =~= Seq::<char>::empty());
        assert(lines(s.take(0)).drop_last() =~= Seq::<Seq<char>>::empty());
    }
    while i < n
        invariant
            chars@ == s,
            n == s.len(),
            i <= n,
            lines(s.take(i as int)).len() >= 1,
            lines(s.take(i as int)).last() == line@,
            failed <==> step_lines(lines(s.take(i as int)).drop_last()) is None,
            !failed ==> step_lines(lines(s.take(i as int)).drop_last()) == Some((nv, views(clauses@), current@)),
        decreases n - i,
    {
        let c = chars[i];
        let ghost l0 = lines(s.take(i as int));
        proof {
            assert(s.take(i + 1).drop_last() =~= s.take(i as int));
            assert(s.take(i + 1).last() == c);
        }
        if c == '\n' {
            let ghost st_before = (nv, views(clauses@), current@);
            if !failed {
                let ok = apply_line(&mut nv, &mut clauses, &mut current, &line);
                if !ok {
                    failed = true;
                }
            }
            line = Vec::new();
            proof {
                let l1 = lines(s.take(i + 1));
                assert(l1 == l0.push(Seq::<char>::empty()));
                assert(l1.drop_last() =~= l0);
                assert(line@ =~= Seq::<char>::empty());
            }
        } else {
            line.push(c);
            proof {
                let l1 = lines(s.take(i + 1));
                assert(l1.drop_last() =~= l0.drop_last());
            }
        }
        i = i + 1;
    }
    proof {
        assert(s.take(n as int) =~= s);
        lemma_lines_nonempty(s);
    }
    if !failed {
        let ok = apply_line(&mut nv, &mut clauses, &mut current, &line);
        if !ok {
            failed = true;
        }
    }
    if failed {
        return None;
    }
    if current.len() > 0 {
        let ghost v0 = views(clauses@);
        clauses.push(current);
        proof {
            assert(views(clauses@) =~= v0.push(current@));
        }
    }
    Some((nv, clauses))
}

/// Reads a DIMACS text that has no clause word `-2147483648`: the variable
/// count of its `p cnf` header (0 without one) and its clauses as literal
/// lists, in order.
pub fn parse_dimacs(content: &str) -> (r: (u32, Vec<Vec<Lit>>))
    requires
        dimacs_spec(content@) is Some,
    ensures
        dimacs_spec(content@) == Some((r.0, views(r.1@))),
{
    match try_parse_dimacs(content) {
        Some(res) => res,
        None => {
            proof {
                assert(false);
            }
            (0, Vec::new())
        },
    }
}

/// Cutting at a `'\n'` splits the lines: those of the text before it, then
/// those of the text after it.
pub proof fn lemma_lines_split(s: Seq<char>, t: Seq<char>)
    ensures
        lines(s + seq!['\n'] + t) == lines(s) + lines(t),
    decreases t.len(),
{
    let st = s + seq!['\n'] + t;
    if t.len() == 0 {
        assert(st.drop_last() =~= s);
        assert(lines(t) =~= seq![Seq::<char>::empty()]);
        assert(lines(st) =~= lines(s) + lines(t));
    } else {
        let t0 = t.drop_last();
        lemma_lines_split(s, t0);
        lemma_lines_nonempty(t0);
        assert(st.drop_last() =~= s + seq!['\n'] + t0);
        assert(st.last() == t.last());
        let pre = lines(s + seq!['\n'] + t0);
        assert(pre == lines(s) + lines(t0));
        if t.last() == '\n' {
            assert(lines(st) =~= lines(s) + lines(t));
        } else {
            assert(pre.last() == lines(t0).last());
            assert(lines(st) =~= lines(s) + lines(t));
        }
    }
}

/// A text without `'\n'` is a single line.
pub proof fn lemma_one_line(y: Seq<char>)
    requires
        forall|k: int| 0 <= k < y.len() ==> y[k] != '\n',
    ensures
        lines(y) == seq![y],
    decreases y.len(),
{
    if y.len() > 0 {
        let y0 = y.drop_last();
        lemma_one_line(y0);
        assert(y0.push(y.last()) =~= y);
        assert(y.last() != '\n');
        assert(lines(y) == seq![y0].update(0, y0.push(y.last())));
        assert(lines(y) =~= seq![y]);
    } else {
        assert(y =~= Seq::<char>::empty());
    }
}

/// A text that starts with a non-blank character has a first word that
/// starts with it.
pub proof fn lemma_first_token(y: Seq<char>)
    requires
        y.len() > 0,
        !is_ws(y[0]),
    ensures
        tokens(y).len() > 0,
        tokens(y)[0].len() > 0,
        tokens(y)[0][0] == y[0],
    decreases y.len(),
{
    if y.len() == 1 {
        assert(y.drop_last() =~= Seq::<char>::empty());
    } else {
        let y0 = y.drop_last();
        assert(y0[0] == y[0]);
        lemma_first_token(y0);
    }
}

/// A comment line, wherever it stands, leaves the reading state as it was.
proof fn lemma_step_lines_comment(l1: Seq<Seq<char>>, cl: Seq<char>, m: Seq<Seq<char>>)
    requires
        cl.len() > 0,
        cl[0] == 'c',
    ensures
        step_lines(l1 + seq![cl] + m) == step_lines(l1 + m),
    decreases m.len(),
{
    if m.len() == 0 {
        assert((l1 + seq![cl] + m).drop_last() =~= l1);
        assert((l1 + seq![cl] + m).last() == cl);
        assert(l1 + m =~= l1);
        lemma_first_token(cl);
    } else {
        let m0 = m.drop_last();
        lemma_step_lines_comment(l1, cl, m0);
        assert((l1 + seq![cl] + m).drop_last() =~= l1 + seq![cl] + m0);
        assert((l1 + m).drop_last() =~= l1 + m0);
        assert((l1 + seq![cl] + m).last() == m.last());
        assert((l1 + m).last() == m.last());
    }
}

/// Inserting a comment line (a line starting with `c`) between two lines
/// changes neither the variable count nor the clauses read, even in the
/// middle of a clause.
pub proof fn lemma_comment_line(a: Seq<char>, x: Seq<char>, b: Seq<char>)
    requires
        forall|k: int| 0 <= k < x.len() ==> x[k] != '\n',
    ensures
        dimacs_spec(a + seq!['\n', 'c'] + x + seq!['\n'] + b) == dimacs_spec(a + seq!['\n'] + b),
{
    let cl = seq!['c'] + x;
    assert(a + seq!['\n', 'c'] + x + seq!['\n'] + b =~= a + seq!['\n'] + (cl + seq!['\n'] + b));
    lemma_lines_split(a, cl + seq!['\n'] + b);
    lemma_lines_split(cl, b);
    assert forall|k: int| 0 <= k < cl.len() implies cl[k] != '\n' by {
        if k > 0 {
            assert(cl[k] == x[k - 1]);
        }
    }
    lemma_one_line(cl);
    lemma_lines_split(a, b);
    assert(lines(a) + (seq![cl] + lines(b)) =~= lines(a) + seq![cl] + lines(b));
    lemma_step_lines_comment(lines(a), cl, lines(b));
}

} // verus!
