//! Reading a whole equation: reagents and products on either side of `=`,
//! each formula separated by `+`.
use crate::chemical::{formula_counts, formula_fits, parse_chemical, Chemical};
use vstd::prelude::*;

verus! {

/// Why an equation's text could not be read.
#[derive(Debug, PartialEq, Eq)]
pub enum EquationError {
    /// The text has no `=` between reagents and products.
    MissingEqualsSign,
    /// A formula is not well formed; it holds the formula's text.
    ParseFailure(String),
}

/// Spaces, tabs and line breaks, which surround formulas.
pub open spec fn is_space(c: char) -> bool {
    c == ' ' || c == '\t' || c == '\n' || c == '\r'
}

/// The pieces of `s` between occurrences of `sep`.
pub open spec fn split_on(s: Seq<char>, sep: char) -> Seq<Seq<char>>
    decreases s.len(),
{
    if s.len() == 0 {
        seq![Seq::empty()]
    } else {
        let rest = split_on(s.drop_last(), sep);
        if s.last() == sep {
            rest.push(Seq::empty())
        } else {
            rest.update(rest.len() - 1, rest.last().push(s.last()))
        }
    }
}

pub open spec fn trim_start(s: Seq<char>) -> Seq<char>
    decreases s.len(),
{
    if s.len() > 0 && is_space(s[0]) {
        trim_start(s.drop_first())
    } else {
        s
    }
}

pub open spec fn trim_end(s: Seq<char>) -> Seq<char>
    decreases s.len(),
{
    if s.len() > 0 && is_space(s.last()) {
        trim_end(s.drop_last())
    } else {
        s
    }
}

/// `s` without surrounding spaces.
pub open spec fn trim(s: Seq<char>) -> Seq<char> {
    trim_end(trim_start(s))
}

/// `cs` holds one parsed formula for each `+`-separated piece of `side`.
pub open spec fn side_parsed(cs: Seq<Chemical>, side: Seq<char>) -> bool {
    &&& cs.len() == split_on(side, '+').len()
    &&& forall|i: int|
        0 <= i < cs.len() ==> {
            &&& #[trigger] cs[i].wf()
            &&& cs[i].display@ == trim(split_on(side, '+')[i])
            &&& formula_counts(cs[i].display@) == Some(cs[i].counts())
        }
}

/// `s` is a formula whose counts all fit in a `u64`.
pub open spec fn well_formed(s: Seq<char>) -> bool {
    formula_counts(s) is Some && formula_fits(s)
}

/// Position `p` holds the first `=` of `s`.
pub open spec fn first_equals(s: Seq<char>, p: int) -> bool {
    &&& 0 <= p < s.len()
    &&& s[p] == '='
    &&& forall|j: int| 0 <= j < p ==> s[j] != '='
}

/// The pieces of a prefix that ends at a separator are pieces of the whole.
proof fn lemma_split_prefix(s: Seq<char>, m: int, sep: char)
    requires
        0 <= m <= s.len(),
    ensures
        split_on(s.take(m), sep).len() <= split_on(s, sep).len(),
        forall|i: int|
            0 <= i < split_on(s.take(m), sep).len() - 1 ==> #[trigger] split_on(s, sep)[i]
                == split_on(s.take(m), sep)[i],
    decreases s.len() - m,
{
    if m == s.len() {
        assert(s.take(m) =~= s);
    } else {
        let p = s.drop_last();
        lemma_split_prefix(p, m, sep);
        assert(p.take(m) =~= s.take(m));
    }
}

fn space_char(c: char) -> (r: bool)
    ensures
        r == is_space(c),
{
    c == ' ' || c == '\t' || c == '\n' || c == '\r'
}

/// The bounds of `input[start..end]` without its surrounding spaces.
fn trimmed_range(input: &str, start: usize, end: usize) -> (r: (usize, usize))
    requires
        start <= end <= input@.len(),
    ensures
        start <= r.0 <= r.1 <= end,
        input@.subrange(r.0 as int, r.1 as int) == trim(input@.subrange(start as int, end as int)),
{
    let mut a = start;
    while a < end && space_char(input.get_char(a))
        invariant
            start <= a <= end <= input@.len(),
            trim_start(input@.subrange(start as int, end as int)) == trim_start(
                input@.subrange(a as int, end as int),
            ),
        decreases end - a,
    {
        assert(input@.subrange(a as int, end as int).drop_first() =~= input@.subrange(
            a + 1,
            end as int,
        ));
        a += 1;
    }
    let mut b = end;
    while b > a && space_char(input.get_char(b - 1))
        invariant
            start <= a <= b <= end <= input@.len(),
            trim_end(input@.subrange(a as int, end as int)) == trim_end(
                input@.subrange(a as int, b as int),
            ),
        decreases b - a,
    {
        assert(input@.subrange(a as int, b as int).drop_last() =~= input@.subrange(
            a as int,
            b - 1,
        ));
        b -= 1;
    }
    (a, b)
}

/// Parses the `+`-separated formulas of `input[from..to]`.
fn parse_side(input: &str, from: usize, to: usize) -> (r: Result<Vec<Chemical>, EquationError>)
    requires
        from <= to <= input@.len(),
    ensures
        r matches Ok(cs) ==> side_parsed(cs@, input@.subrange(from as int, to as int)),
        r matches Err(e) ==> e matches EquationError::ParseFailure(t) && split_on(
            input@.subrange(from as int, to as int),
            '+',
        ).contains(t@) && !well_formed(trim(t@)),
{
    let mut chemicals: Vec<Chemical> = Vec::new();
    let mut start = from;
    let mut k = from;
    let ghost mut done: Seq<Seq<char>> = Seq::empty();
    proof {
        assert(input@.subrange(from as int, from as int) =~= Seq::<char>::empty());
        assert(split_on(Seq::<char>::empty(), '+') =~= done.push(Seq::<char>::empty()));
    }
    loop
        invariant
            from <= start <= k <= to <= input@.len(),
            split_on(input@.subrange(from as int, k as int), '+') == done.push(
                input@.subrange(start as int, k as int),
            ),
            chemicals@.len() == done.len(),
            forall|i: int|
                0 <= i < chemicals@.len() ==> {
                    &&& #[trigger] chemicals@[i].wf()
                    &&& chemicals@[i].display@ == trim(done[i])
                    &&& formula_counts(chemicals@[i].display@) == Some(chemicals@[i].counts())
                },
        decreases to - k, (k == to) as int,
    {
        let at_end = k == to;
        if at_end || input.get_char(k) == '+' {
            let (a, b) = trimmed_range(input, start, k);
            let text = input.substring_char(a, b);
            let ghost piece = input@.subrange(start as int, k as int);
            proof {
                assert(split_on(input@.subrange(from as int, k as int), '+')[done.len() as int] == piece);
            }
            match parse_chemical(text) {
                Some(c) => {
                    chemicals.push(c);
                },
                None => {
                    let raw = input.substring_char(start, k);
                    proof {
                        let whole = input@.subrange(from as int, to as int);
                        let idx = done.len() as int;
                        if at_end {
                            assert(split_on(whole, '+')[idx] == piece);
                        } else {
                            let s1 = input@.subrange(from as int, k + 1);
                            assert(s1.drop_last() =~= input@.subrange(from as int, k as int));
                            assert(s1.last() == '+');
                            assert(whole.take(k + 1 - from) =~= s1);
                            lemma_split_prefix(whole, k + 1 - from, '+');
                            assert(split_on(s1, '+')[idx] == piece);
                            assert(split_on(whole, '+')[idx] == piece);
                        }
                    }
                    return Err(EquationError::ParseFailure(raw.to_owned()));
                },
            }
            if at_end {
                proof {
                    assert forall|i: int| 0 <= i < chemicals@.len() implies {
                        &&& #[trigger] chemicals@[i].wf()
                        &&& chemicals@[i].display@ == trim(split_on(input@.subrange(from as int, to as int), '+')[i])
                        &&& formula_counts(chemicals@[i].display@) == Some(chemicals@[i].counts())
                    } by {
                        if i < done.len() {
                            assert(split_on(input@.subrange(from as int, to as int), '+')[i] == done[i]);
                        }
                    }
                }
                return Ok(chemicals);
            }
            proof {
                let s = input@.subrange(from as int, k + 1);
                assert(s.drop_last() =~= input@.subrange(from as int, k as int));
                assert(s.last() == '+');
                let old_done = done;
                done = done.push(piece);
                assert forall|i: int| 0 <= i < chemicals@.len() implies {
                    &&& #[trigger] chemicals@[i].wf()
                    &&& chemicals@[i].display@ == trim(done[i])
                    &&& formula_counts(chemicals@[i].display@) == Some(chemicals@[i].counts())
                } by {
                    if i < old_done.len() {
                        assert(done[i] == old_done[i]);
                    }
                }
                assert(input@.subrange(k + 1, k + 1) =~= Seq::<char>::empty());
            }
            k += 1;
            start = k;
        } else {
            proof {
                let s = input@.subrange(from as int, k + 1);
                assert(s.drop_last() =~= input@.subrange(from as int, k as int));
                assert(input@.subrange(start as int, k + 1) =~= input@.subrange(
                    start as int,
                    k as int,
                ).push(input@[k as int]));
                assert(split_on(s, '+') =~= done.push(input@.subrange(start as int, k + 1)));
            }
            k += 1;
        }
    }
}

/// Reads `reagent + ... = product + ...`: the text up to the first `=` holds
/// the reagents, the rest the products, each formula separated by `+` and
/// surrounded by optional spaces.
pub fn parse_equation(input: &str) -> (r: Result<(Vec<Chemical>, Vec<Chemical>), EquationError>)
    ensures
        r == Err::<(Vec<Chemical>, Vec<Chemical>), EquationError>(EquationError::MissingEqualsSign)
            <==> !input@.contains('='),
        r matches Ok((reagents, products)) ==> exists|p: int|
            first_equals(input@, p) && side_parsed(reagents@, input@.take(p)) && side_parsed(
                products@,
                input@.skip(p + 1),
            ),
        r matches Err(EquationError::ParseFailure(t)) ==> !well_formed(trim(t@)) && exists|p: int|
            first_equals(input@, p) && (split_on(input@.take(p), '+').contains(t@) || split_on(
                input@.skip(p + 1),
                '+',
            ).contains(t@)),
{
    let n = input.unicode_len();
    let mut p: usize = 0;
    while p < n && input.get_char(p) != '='
        invariant
            n == input@.len(),
            p <= n,
            forall|j: int| 0 <= j < p ==> input@[j] != '=',
        decreases n - p,
    {
        p += 1;
    }
    if p == n {
        return Err(EquationError::MissingEqualsSign);
    }
    assert(input@.contains('='));
    assert(input@.subrange(0, p as int) =~= input@.take(p as int));
    assert(input@.subrange(p + 1, n as int) =~= input@.skip(p + 1));
    assert(first_equals(input@, p as int));
    let reagents = match parse_side(input, 0, p) {
        Ok(cs) => cs,
        Err(e) => {
            return Err(e);
        },
    };
    let products = match parse_side(input, p + 1, n) {
        Ok(cs) => cs,
        Err(e) => {
            return Err(e);
        },
    };
    Ok((reagents, products))
}

} // verus!
